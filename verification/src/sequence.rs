//! Rearrangements of a vector's elements.

use vstd::prelude::*;

use crate::model::{permuted, rotated_right};

verus! {

/// `<[T]>::rotate_right`: the last `by` elements come to the front. It panics where `by` is more
/// than the length.
#[verifier::external_body]
fn rotate_right<T>(values: &mut Vec<T>, by: usize)
    requires
        by <= old(values)@.len(),
    ensures
        final(values)@ == rotated_right(old(values)@, by as int),
{
    values.rotate_right(by)
}

/// `<[T]>::reverse`: the elements in the opposite order.
#[verifier::external_body]
fn reverse<T>(values: &mut Vec<T>)
    ensures
        final(values)@ == old(values)@.reverse(),
{
    values.reverse()
}

/// Moves every element `shifts` places towards the end, those that pass the end coming in at the
/// front.
pub fn permute<T>(values: &mut Vec<T>, shifts: usize)
    ensures
        final(values)@ == permuted(old(values)@, shifts as nat),
{
    let len = values.len();
    if len == 0 {
        return;
    }
    let shift = shifts % len;
    if shift == 0 {
        assert(rotated_right(values@, 0) =~= values@);
        return;
    }
    rotate_right(values, shift);
}

/// Keeps the first element in its place and turns the order of the others round.
pub fn reflect<T>(values: &mut Vec<T>)
    ensures
        final(values)@ == crate::model::reflected(old(values)@),
{
    if values.len() == 0 {
        assert(values@ =~= crate::model::reflected(old(values)@));
        return;
    }
    reverse(values);
    rotate_right(values, 1);
    assert(values@ =~= crate::model::reflected(old(values)@));
}

} // verus!
