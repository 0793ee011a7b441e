//! Vector symbolic architectures: binary spatter codes, multiply-add-permute and
//! holographic reduced representations, with verified operations.

pub mod arithmetic;
pub mod binary_spatter;
pub mod bits;
pub mod generator;
pub mod holographic;
pub mod laws;
pub mod model;
pub mod multiply_add_permute;
pub mod resolution;
pub mod sequence;
pub mod storage;
