//! What holds between the operations of the architectures.

pub mod complex;
pub mod convolution;
pub mod counting;
pub mod drawing;
pub mod exact;
pub mod holographic;
pub mod multiply_add_permute;
pub mod real_sums;
pub mod rotation;
pub mod rounded_binding;
pub mod rounding;
pub mod similarity;
pub mod spatter;
