//! A packed vector of bits.

use bitvec::order::Lsb0;
use bitvec::vec::BitVec;
use vstd::prelude::*;

use crate::model::{and_bits, count_true, mismatches, not_bits, or_bits, packed_bit, permuted};
use crate::model::{rotated_right, xor_bits};

verus! {

/// The largest number of bits that a `BitVector` can hold.
pub const MAX_BITS: usize = usize::MAX / 8;

/// A vector of bits, packed into bytes with the lowest bit of a byte first.
#[verifier::external_body]
#[derive(Debug, PartialEq, Eq, Hash)]
pub struct BitVector {
    bits: BitVec<u8, Lsb0>,
}

/// The bits that a `BitVector` holds, in order.
pub uninterp spec fn contents(vector: BitVector) -> Seq<bool>;

impl View for BitVector {
    type V = Seq<bool>;

    open spec fn view(&self) -> Seq<bool> {
        contents(*self)
    }
}

impl Clone for BitVector {
    /// A copy, made by `BitVec::clone`: it holds the same bits.
    #[verifier::external_body]
    fn clone(&self) -> (copy: Self)
        ensures
            contents(copy) == contents(*self),
    {
        BitVector { bits: self.bits.clone() }
    }
}

impl BitVector {
    /// An empty vector, made by `BitVec::new`.
    #[verifier::external_body]
    fn empty() -> (vector: Self)
        ensures
            contents(vector) == Seq::<bool>::empty(),
    {
        BitVector { bits: BitVec::new() }
    }

    /// `BitVec::push`: the bit is added at the end. It panics where the vector would grow past
    /// `MAX_BITS`.
    #[verifier::external_body]
    fn push(&mut self, bit: bool)
        requires
            contents(*old(self)).len() < MAX_BITS,
        ensures
            contents(*final(self)) == contents(*old(self)).push(bit),
    {
        self.bits.push(bit)
    }

    /// `BitVec::len`: the number of bits, which the vector's encoding keeps within `MAX_BITS`.
    #[verifier::external_body]
    fn bit_count(&self) -> (count: usize)
        ensures
            count == contents(*self).len(),
            count <= MAX_BITS,
    {
        self.bits.len()
    }

    /// Indexing a `BitVec` by position: the bit that stands there. It panics outside the vector.
    #[verifier::external_body]
    fn bit(&self, index: usize) -> (bit: bool)
        requires
            index < contents(*self).len(),
        ensures
            bit == contents(*self)[index as int],
    {
        self.bits[index]
    }

    /// `^=` on a `BitVec`, with the right operand extended by `false` where it is shorter.
    #[verifier::external_body]
    pub(crate) fn xor_assign(&mut self, other: &Self)
        ensures
            contents(*final(self)) == xor_bits(contents(*old(self)), contents(*other)),
    {
        self.bits ^= other.bits.as_bitslice()
    }

    /// `&=` on a `BitVec`, with the right operand extended by `false` where it is shorter.
    #[verifier::external_body]
    pub(crate) fn and_assign(&mut self, other: &Self)
        ensures
            contents(*final(self)) == and_bits(contents(*old(self)), contents(*other)),
    {
        self.bits &= other.bits.as_bitslice()
    }

    /// `|=` on a `BitVec`, with the right operand extended by `false` where it is shorter.
    #[verifier::external_body]
    pub(crate) fn or_assign(&mut self, other: &Self)
        ensures
            contents(*final(self)) == or_bits(contents(*old(self)), contents(*other)),
    {
        self.bits |= other.bits.as_bitslice()
    }

    /// `!` on a `BitVec`: every bit is inverted.
    #[verifier::external_body]
    fn inverted(self) -> (inverse: Self)
        ensures
            contents(inverse) == not_bits(contents(self)),
    {
        BitVector { bits: !self.bits }
    }

    /// `BitSlice::rotate_right`: the last `by` bits come to the front. It panics where `by` is
    /// more than the length.
    #[verifier::external_body]
    fn rotate_right(&mut self, by: usize)
        requires
            by <= contents(*old(self)).len(),
        ensures
            contents(*final(self)) == rotated_right(contents(*old(self)), by as int),
    {
        self.bits.rotate_right(by)
    }

    /// `BitSlice::count_ones`: the number of bits that are set.
    #[verifier::external_body]
    fn count_ones(&self) -> (count: usize)
        ensures
            count == count_true(contents(*self)),
    {
        self.bits.count_ones()
    }

    /// `BitVec::as_raw_slice`: the bytes that hold the bits, as few as can. The vectors made in
    /// this module start at the lowest bit of their first byte. What the last byte holds past the
    /// last bit is left open.
    #[verifier::external_body]
    pub(crate) fn as_bytes(&self) -> (bytes: &[u8])
        ensures
            bytes@.len() == (contents(*self).len() + 7) / 8,
            forall|i: int|
                0 <= i < contents(*self).len() ==> packed_bit(bytes@, i) == #[trigger] contents(
                    *self,
                )[i],
    {
        self.bits.as_raw_slice()
    }
}

impl BitVector {
    /// The vector that holds the given bits.
    pub fn from_bools(values: &[bool]) -> (vector: Self)
        requires
            values@.len() <= MAX_BITS,
        ensures
            vector@ == values@,
    {
        let mut vector = BitVector::empty();
        for i in 0..values.len()
            invariant
                values@.len() <= MAX_BITS,
                vector@ == values@.take(i as int),
        {
            vector.push(values[i]);
        }
        vector
    }

    /// The number of bits.
    pub fn len(&self) -> (len: usize)
        ensures
            len == self@.len(),
            len <= MAX_BITS,
    {
        self.bit_count()
    }

    /// The bit at a position.
    pub fn get(&self, index: usize) -> (bit: bool)
        requires
            index < self@.len(),
        ensures
            bit == self@[index as int],
    {
        self.bit(index)
    }

    /// Inverts every bit.
    pub(crate) fn invert(&mut self)
        ensures
            final(self)@ == not_bits(old(self)@),
    {
        let mut taken = BitVector::empty();
        std::mem::swap(&mut taken, self);
        *self = taken.inverted();
    }

    /// Moves every bit `shifts` places towards the end, those that pass the end coming in at the
    /// front.
    pub(crate) fn permute(&mut self, shifts: usize)
        ensures
            final(self)@ == permuted(old(self)@, shifts as nat),
    {
        let len = self.len();
        if len == 0 {
            return;
        }
        let shift = shifts % len;
        if shift == 0 {
            assert(rotated_right(self@, 0) =~= self@);
            return;
        }
        self.rotate_right(shift);
    }

    /// The number of positions at which the two vectors hold different bits.
    pub fn mismatches(&self, other: &Self) -> (count: usize)
        requires
            self@.len() == other@.len(),
        ensures
            count == mismatches(self@, other@),
            count <= self@.len(),
    {
        let mut diff = self.clone();
        diff.xor_assign(other);
        proof {
            crate::model::lemma_count_bound(diff@);
        }
        diff.count_ones()
    }
}

} // verus!
