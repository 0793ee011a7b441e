//! Laws of random bits: every bit of a vector is a bit of the bytes that were drawn.

use parking_lot::RwLock;
use vstd::prelude::*;

use crate::generator::{drawn, RandomSource};
use crate::model::unpacked;

verus! {

/// Bit `i` of the unpacked bits is bit `i % 8`, the lowest first, of byte `i / 8`.
pub proof fn unpacked_bit(bytes: Seq<u8>, size: nat, i: int)
    requires
        0 <= i < size,
    ensures
        unpacked(bytes, size).len() == size,
        unpacked(bytes, size)[i] <==> (bytes[i / 8] >> ((i % 8) as u8)) & 1u8 == 1u8,
{
}

/// Bytes whose bits differ at `i` unpack to bits that differ at `i`.
pub proof fn unpacking_tells_bytes_apart(one: Seq<u8>, two: Seq<u8>, size: nat, i: int)
    requires
        0 <= i < size,
        (one[i / 8] >> ((i % 8) as u8)) & 1u8 != (two[i / 8] >> ((i % 8) as u8)) & 1u8,
    ensures
        unpacked(one, size)[i] != unpacked(two, size)[i],
{
    let (x, y, offset) = (one[i / 8], two[i / 8], (i % 8) as u8);
    assert((x >> offset) & 1u8 == 0u8 || (x >> offset) & 1u8 == 1u8) by (bit_vector);
    assert((y >> offset) & 1u8 == 0u8 || (y >> offset) & 1u8 == 1u8) by (bit_vector);
}

/// The byte whose bits are the given ones, the lowest first.
spec fn packed(bits: Seq<bool>, count: nat) -> u8
    decreases count,
{
    if count == 0 {
        0u8
    } else {
        let k = (count - 1) as u8;
        packed(bits, (count - 1) as nat) | (if bits[count - 1] {
            1u8 << k
        } else {
            0u8
        })
    }
}

proof fn lemma_packed(bits: Seq<bool>, count: nat, offset: u8)
    requires
        count <= 8,
        offset < 8,
    ensures
        ((packed(bits, count) >> offset) & 1u8 == 1u8) <==> offset < count && bits[offset as int],
    decreases count,
{
    if count == 0 {
        assert((0u8 >> offset) & 1u8 == 0u8) by (bit_vector);
    } else {
        let k = (count - 1) as u8;
        let (low, bit) = (packed(bits, (count - 1) as nat), bits[count - 1]);
        lemma_packed(bits, (count - 1) as nat, offset);
        assert((((low | (1u8 << k)) >> offset) & 1u8 == 1u8) <==> ((low >> offset) & 1u8 == 1u8
            || offset == k)) by (bit_vector)
            requires
                k < 8,
                offset < 8,
        ;
        assert(low | 0u8 == low) by (bit_vector);
    }
}

/// Every vector of bits can be drawn: there are bytes that unpack to it.
pub proof fn every_vector_unpacks(bits: Seq<bool>) -> (bytes: Seq<u8>)
    ensures
        bytes.len() == (bits.len() + 7) / 8,
        unpacked(bytes, bits.len()) == bits,
{
    let bytes = Seq::new(
        (bits.len() + 7) / 8,
        |k: int| packed(Seq::new(8, |n: int| 8 * k + n < bits.len() && bits[8 * k + n]), 8),
    );
    assert forall|i: int| 0 <= i < bits.len() implies #[trigger] unpacked(bytes, bits.len())[i]
        == bits[i] by {
        let (k, n) = (i / 8, i % 8);
        let part = Seq::new(8, |n: int| 8 * k + n < bits.len() && bits[8 * k + n]);
        assert(8 * k + n == i);
        lemma_packed(part, 8, n as u8);
    }
    assert(unpacked(bytes, bits.len()) =~= bits);
    bytes
}

/// A random vector comes of one draw of bytes, enough to hold it, and each of its bits is the bit
/// of those bytes at the same place.
pub proof fn drawn_bits_are_drawn<Rng: RandomSource>(
    generator: RwLock<Rng>,
    bits: Seq<bool>,
) -> (bytes: Vec<u8>)
    requires
        drawn(generator, bits),
    ensures
        exists|count: usize|
            8 * count >= bits.len() && bytes@.len() == count && #[trigger] call_ensures(
                Rng::draw_bytes,
                (&generator, count),
                bytes,
            ),
        forall|i: int|
            0 <= i < bits.len() ==> (#[trigger] bits[i] <==> (bytes@[i / 8] >> ((i % 8) as u8))
                & 1u8 == 1u8),
{
    let (count, bytes) = choose|count: usize, bytes: Vec<u8>|
        count == (bits.len() + 7) / 8 && #[trigger] call_ensures(
            Rng::draw_bytes,
            (&generator, count),
            bytes,
        ) && bits == unpacked(bytes@, bits.len());
    assert forall|i: int| 0 <= i < bits.len() implies (#[trigger] bits[i] <==> (bytes@[i / 8] >> ((i
        % 8) as u8)) & 1u8 == 1u8) by {
        unpacked_bit(bytes@, bits.len(), i);
    }
    bytes
}

} // verus!
