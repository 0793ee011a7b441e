# hypervector

Vector symbolic architectures, verified with Verus: binary spatter codes (BSC),
multiply-add-permute (MAP) and holographic reduced representations (HRR).

- `src/binary_spatter.rs`, `src/multiply_add_permute.rs`, `src/holographic.rs`: the three
  architectures. Each can draw random vectors, bind, bundle, permute and compare them.
- `src/model.rs`: the mathematics that the contracts are written in.
- `src/bits.rs`: the packed bit vector, on top of `bitvec`.
- `src/generator.rs`: the random generators, on top of `rand` and `parking_lot`.
- `src/resolution.rs`: the number types. Integers are exact; of floating-point arithmetic nothing
  is assumed, and `src/arithmetic.rs` says which operation yields each number of a result. Of draws
  and transforms, only how many numbers they give is assumed, and the range that draws lie in.
- `src/storage.rs`, `src/sequence.rs`: size constraints and rearrangements.
- `src/laws/`: what holds between the operations. `exact.rs`, `convolution.rs` and
  `holographic.rs` say what the floating-point results are where the arithmetic is exact, for
  example that binding holographic vectors is their circular convolution. `similarity.rs` says
  which similarities are the same to the last digit.
- `app/`: the architectures on `f32` and `f64`, with `rustfft` for the transforms.
