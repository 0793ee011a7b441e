//! What every operation asks of the vectors that it combines.

use vstd::prelude::*;

verus! {

/// Why two vectors cannot be combined.
#[derive(Clone, Copy, Debug, PartialEq, Eq, Structural)]
pub enum ConstraintError {
    /// The vectors have different sizes.
    DifferentSizes,
    /// The vectors hold nothing.
    Empty,
}

/// Whether vectors of the two sizes can be combined.
pub open spec fn combinable(left: nat, right: nat) -> bool {
    left == right && left > 0
}

/// Tests whether vectors of the two sizes can be combined. Different sizes are reported before
/// empty vectors.
pub fn enforce_constraints(left: usize, right: usize) -> (result: Result<(), ConstraintError>)
    ensures
        result is Ok <==> combinable(left as nat, right as nat),
        result == Err::<(), _>(ConstraintError::DifferentSizes) <==> left != right,
        result == Err::<(), _>(ConstraintError::Empty) <==> left == 0 && right == 0,
{
    if left != right {
        Err(ConstraintError::DifferentSizes)
    } else if left == 0 {
        Err(ConstraintError::Empty)
    } else {
        Ok(())
    }
}

impl ConstraintError {
    /// The error in words.
    pub fn message(&self) -> (text: &'static str)
        ensures
            *self is DifferentSizes ==> text@
                == "cannot operate on vectors with different sizes"@,
            *self is Empty ==> text@ == "cannot operate on vectors with size 0"@,
    {
        match self {
            ConstraintError::DifferentSizes => "cannot operate on vectors with different sizes",
            ConstraintError::Empty => "cannot operate on vectors with size 0",
        }
    }
}

/// Vectors can be combined where they have the same size and hold something, whatever the size.
pub proof fn combinable_sizes(left: nat, right: nat)
    ensures
        combinable(left, right) <==> left == right && right >= 1,
{
}

} // verus!
