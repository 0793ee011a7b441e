//! The random generators that architectures draw from.

use parking_lot::RwLock;
use rand::rngs::StdRng;
use rand::SeedableRng;
use vstd::prelude::*;

use crate::bits::{BitVector, MAX_BITS};
use crate::model::unpacked;

verus! {

/// The lock type of `parking_lot`, as `lock_api` defines it.
#[verifier::external_type_specification]
#[verifier::external_body]
#[verifier::reject_recursive_types(R)]
#[verifier::reject_recursive_types(T)]
pub struct ExternalRwLock<R, T: ?Sized>(parking_lot::lock_api::RwLock<R, T>);

/// The locking primitive of `parking_lot::RwLock`.
#[verifier::external_type_specification]
#[verifier::external_body]
pub struct ExternalRawRwLock(parking_lot::RawRwLock);

/// The standard generator of `rand`.
#[verifier::external_type_specification]
#[verifier::external_body]
pub struct ExternalStdRng(StdRng);

/// A random generator that can be made from a seed and shared behind a lock.
pub trait RandomSource: Sized {
    /// A generator made from `seed`, behind a lock.
    fn seeded(seed: u64) -> RwLock<Self>;

    /// The next `count` random bytes of a generator that is held alone.
    fn next_bytes(generator: &mut Self, count: usize) -> (bytes: Vec<u8>)
        ensures
            bytes@.len() == count,
    ;

    /// The next `count` random bytes of a shared generator.
    fn draw_bytes(generator: &RwLock<Self>, count: usize) -> (bytes: Vec<u8>)
        ensures
            bytes@.len() == count,
    ;
}

/// `RwLock::new` on `StdRng::seed_from_u64`. Nothing is claimed of what the generator yields: the
/// documentation of `StdRng` leaves that open even for a fixed seed.
#[verifier::external_body]
fn seeded_generator(seed: u64) -> (generator: RwLock<StdRng>) {
    RwLock::new(StdRng::seed_from_u64(seed))
}

/// `generator` is a lock on a standard generator that was made from `seed`: one that
/// `seeded_generator` returns for that seed.
pub closed spec fn made_from_seed(seed: u64, generator: RwLock<StdRng>) -> bool {
    call_ensures(seeded_generator, (seed,), generator)
}

/// `Rng::fill_bytes` on the locked generator, which overwrites every byte. How many bytes there are
/// stays the same; nothing is claimed of what they become.
#[verifier::external_body]
fn fill_from_generator(generator: &RwLock<StdRng>, bytes: Vec<u8>) -> (filled: Vec<u8>)
    ensures
        filled@.len() == bytes@.len(),
{
    let mut filled = bytes;
    rand::Rng::fill_bytes(&mut *generator.write(), &mut filled);
    filled
}

/// `bytes` is what one call of `fill_from_generator` on the generator makes of `count` bytes.
pub closed spec fn filled_by(generator: RwLock<StdRng>, count: usize, bytes: Vec<u8>) -> bool {
    exists|buffer: Vec<u8>|
        buffer@.len() == count && #[trigger] call_ensures(
            fill_from_generator,
            (&generator, buffer),
            bytes,
        )
}

/// `Rng::fill_bytes`, which overwrites every byte. How many bytes there are stays the same; nothing
/// is claimed of what they become, nor of the generator afterwards.
#[verifier::external_body]
fn fill_alone(generator: &mut StdRng, bytes: Vec<u8>) -> (filled: Vec<u8>)
    ensures
        filled@.len() == bytes@.len(),
{
    let mut filled = bytes;
    rand::Rng::fill_bytes(generator, &mut filled);
    filled
}

/// `bytes` is what one call of `fill_alone` on the generator makes of `count` bytes.
pub closed spec fn filled_alone(
    generator: &mut StdRng,
    count: usize,
    bytes: Vec<u8>,
) -> bool {
    exists|buffer: Vec<u8>|
        buffer@.len() == count && #[trigger] call_ensures(fill_alone, (generator, buffer), bytes)
}

/// `rand::random`: some number, of which nothing is claimed.
#[verifier::external_body]
fn random_seed() -> (seed: u64) {
    rand::random()
}

/// `seed` is a number that `random_seed` returns.
pub closed spec fn random_number(seed: u64) -> bool {
    call_ensures(random_seed, (), seed)
}

/// A seed for a generator, drawn at random.
pub(crate) fn draw_seed() -> (seed: u64)
    ensures
        random_number(seed),
{
    random_seed()
}

impl RandomSource for StdRng {
    fn seeded(seed: u64) -> (generator: RwLock<StdRng>)
        ensures
            made_from_seed(seed, generator),
    {
        seeded_generator(seed)
    }

    fn next_bytes(generator: &mut StdRng, count: usize) -> (bytes: Vec<u8>)
        ensures
            exists|source: &mut StdRng|
                *source == *old(generator) && *final(source) == *final(generator)
                    && #[trigger] filled_alone(source, count, bytes),
    {
        let buffer: Vec<u8> = vec![0; count];
        let bytes = fill_alone(generator, buffer);
        assert(forall|source: &mut StdRng| #[trigger]
            call_ensures(fill_alone, (source, buffer), bytes) ==> filled_alone(
                source,
                count,
                bytes,
            ));
        bytes
    }

    fn draw_bytes(generator: &RwLock<StdRng>, count: usize) -> (bytes: Vec<u8>)
        ensures
            filled_by(*generator, count, bytes),
    {
        let buffer: Vec<u8> = vec![0; count];
        fill_from_generator(generator, buffer)
    }
}

/// `bits` is what the bytes of one draw from the generator, as many as hold `bits.len()` bits,
/// unpack to.
pub open spec fn drawn<Rng: RandomSource>(generator: RwLock<Rng>, bits: Seq<bool>) -> bool {
    exists|count: usize, bytes: Vec<u8>|
        count == (bits.len() + 7) / 8 && #[trigger] call_ensures(
            Rng::draw_bytes,
            (&generator, count),
            bytes,
        ) && bits == unpacked(bytes@, bits.len())
}

/// The first `size` bits of a packed sequence of bytes.
pub fn unpack_bits(bytes: &[u8], size: usize) -> (bits: BitVector)
    requires
        size <= MAX_BITS,
        size <= bytes@.len() * 8,
    ensures
        bits@ == unpacked(bytes@, size as nat),
{
    let mut values: Vec<bool> = Vec::new();
    for i in 0..size
        invariant
            size <= bytes@.len() * 8,
            values@ == unpacked(bytes@, i as nat),
    {
        let offset: u8 = (i % 8) as u8;
        values.push((bytes[i / 8] >> offset) & 1 == 1);
    }
    BitVector::from_bools(&values)
}

/// How many bytes hold `size` bits.
fn byte_count(size: usize) -> (count: usize)
    ensures
        count == (size + 7) / 8,
{
    let whole = size / 8;
    if size % 8 == 0 {
        whole
    } else {
        whole + 1
    }
}

/// `size` random bits of a generator that is held alone: what the bytes of one draw, as many as
/// hold `size` bits, unpack to.
pub(crate) fn next_bits<Rng: RandomSource>(generator: &mut Rng, size: usize) -> (bits: BitVector)
    requires
        size <= MAX_BITS,
    ensures
        bits@.len() == size,
        exists|source: &mut Rng, count: usize, bytes: Vec<u8>|
            *source == *old(generator) && *final(source) == *final(generator) && count == (size
                + 7) / 8 && #[trigger] call_ensures(Rng::next_bytes, (source, count), bytes)
                && bits@ == unpacked(bytes@, size as nat),
{
    let count = byte_count(size);
    let bytes = Rng::next_bytes(generator, count);
    unpack_bits(&bytes, size)
}

/// `size` random bits of a shared generator.
pub(crate) fn random_bits<Rng: RandomSource>(
    generator: &RwLock<Rng>,
    size: usize,
) -> (bits: BitVector)
    requires
        size <= MAX_BITS,
    ensures
        bits@.len() == size,
        drawn(*generator, bits@),
{
    let count = byte_count(size);
    let bytes = Rng::draw_bytes(generator, count);
    unpack_bits(&bytes, size)
}

/// A generator made from a seed is one that `StdRng::seed_from_u64` gave for that very seed.
proof fn seed_is_handed_over(seed: u64, generator: RwLock<StdRng>)
    requires
        made_from_seed(seed, generator),
    ensures
        call_ensures(seeded_generator, (seed,), generator),
{
}

/// Drawn bytes are what filling that many bytes from that very generator gave.
proof fn bytes_are_filled(generator: RwLock<StdRng>, count: usize, bytes: Vec<u8>) -> (buffer: Vec<
    u8,
>)
    requires
        filled_by(generator, count, bytes),
    ensures
        buffer@.len() == count,
        bytes@.len() == count,
        call_ensures(fill_from_generator, (&generator, buffer), bytes),
{
    choose|buffer: Vec<u8>|
        buffer@.len() == count && #[trigger] call_ensures(
            fill_from_generator,
            (&generator, buffer),
            bytes,
        )
}

/// So are those drawn from a generator that is held alone.
proof fn bytes_are_filled_alone(generator: &mut StdRng, count: usize, bytes: Vec<u8>) -> (buffer:
    Vec<u8>)
    requires
        filled_alone(generator, count, bytes),
    ensures
        buffer@.len() == count,
        bytes@.len() == count,
        call_ensures(fill_alone, (generator, buffer), bytes),
{
    choose|buffer: Vec<u8>|
        buffer@.len() == count && #[trigger] call_ensures(fill_alone, (generator, buffer), bytes)
}

/// A random number is one that `rand::random` gave.
proof fn random_number_is_drawn(seed: u64)
    requires
        random_number(seed),
    ensures
        call_ensures(random_seed, (), seed),
{
}

} // verus!
