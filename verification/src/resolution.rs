//! The number types that vectors are built from.

use parking_lot::RwLock;
use vstd::prelude::*;

use crate::arithmetic::within_unit_range;

verus! {

/// A signed integer that a component of an accumulator can be.
///
/// Every operation is the exact one on integers; `fits` says where its result can be held.
pub trait IntResolution: Copy {
    /// The integer that the value stands for.
    spec fn as_int(self) -> int;

    /// Whether the type has a value for `n`.
    spec fn fits(n: int) -> bool;

    /// Every value stands for an integer that fits, no two for the same one, and the integers
    /// that fit are an interval around zero which holds one and its negation.
    proof fn values(a: Self, b: Self)
        ensures
            Self::fits(a.as_int()),
            a.as_int() == b.as_int() ==> a == b,
            Self::fits(-1),
            Self::fits(0),
            Self::fits(1),
            forall|low: int, n: int, high: int|
                #![trigger Self::fits(low), Self::fits(n), Self::fits(high)]
                low <= n <= high && Self::fits(low) && Self::fits(high) ==> Self::fits(n),
    ;

    /// One.
    fn one() -> (value: Self)
        ensures
            value.as_int() == 1,
    ;

    /// The value with its sign changed.
    fn negated(self) -> (value: Self)
        requires
            Self::fits(-self.as_int()),
        ensures
            value.as_int() == -self.as_int(),
    ;

    /// The sum of two values.
    fn plus(self, other: Self) -> (value: Self)
        requires
            Self::fits(self.as_int() + other.as_int()),
        ensures
            value.as_int() == self.as_int() + other.as_int(),
    ;

    /// Whether the value is no less than another.
    fn at_least(self, other: Self) -> (result: bool)
        ensures
            result == (self.as_int() >= other.as_int()),
    ;

    /// The value as the widest integer.
    fn widened(self) -> (value: i128)
        ensures
            value == self.as_int(),
    ;
}

impl IntResolution for i8 {
    open spec fn as_int(self) -> int {
        self as int
    }

    open spec fn fits(n: int) -> bool {
        i8::MIN <= n <= i8::MAX
    }

    proof fn values(a: Self, b: Self) {
    }

    fn one() -> (value: Self) {
        1
    }

    fn negated(self) -> (value: Self) {
        -self
    }

    fn plus(self, other: Self) -> (value: Self) {
        self + other
    }

    fn at_least(self, other: Self) -> (result: bool) {
        self >= other
    }

    fn widened(self) -> (value: i128) {
        self as i128
    }
}

impl IntResolution for i16 {
    open spec fn as_int(self) -> int {
        self as int
    }

    open spec fn fits(n: int) -> bool {
        i16::MIN <= n <= i16::MAX
    }

    proof fn values(a: Self, b: Self) {
    }

    fn one() -> (value: Self) {
        1
    }

    fn negated(self) -> (value: Self) {
        -self
    }

    fn plus(self, other: Self) -> (value: Self) {
        self + other
    }

    fn at_least(self, other: Self) -> (result: bool) {
        self >= other
    }

    fn widened(self) -> (value: i128) {
        self as i128
    }
}

impl IntResolution for i32 {
    open spec fn as_int(self) -> int {
        self as int
    }

    open spec fn fits(n: int) -> bool {
        i32::MIN <= n <= i32::MAX
    }

    proof fn values(a: Self, b: Self) {
    }

    fn one() -> (value: Self) {
        1
    }

    fn negated(self) -> (value: Self) {
        -self
    }

    fn plus(self, other: Self) -> (value: Self) {
        self + other
    }

    fn at_least(self, other: Self) -> (result: bool) {
        self >= other
    }

    fn widened(self) -> (value: i128) {
        self as i128
    }
}

impl IntResolution for i64 {
    open spec fn as_int(self) -> int {
        self as int
    }

    open spec fn fits(n: int) -> bool {
        i64::MIN <= n <= i64::MAX
    }

    proof fn values(a: Self, b: Self) {
    }

    fn one() -> (value: Self) {
        1
    }

    fn negated(self) -> (value: Self) {
        -self
    }

    fn plus(self, other: Self) -> (value: Self) {
        self + other
    }

    fn at_least(self, other: Self) -> (result: bool) {
        self >= other
    }

    fn widened(self) -> (value: i128) {
        self as i128
    }
}

impl IntResolution for i128 {
    open spec fn as_int(self) -> int {
        self as int
    }

    open spec fn fits(n: int) -> bool {
        i128::MIN <= n <= i128::MAX
    }

    proof fn values(a: Self, b: Self) {
    }

    fn one() -> (value: Self) {
        1
    }

    fn negated(self) -> (value: Self) {
        -self
    }

    fn plus(self, other: Self) -> (value: Self) {
        self + other
    }

    fn at_least(self, other: Self) -> (result: bool) {
        self >= other
    }

    fn widened(self) -> (value: i128) {
        self
    }
}

impl IntResolution for isize {
    open spec fn as_int(self) -> int {
        self as int
    }

    open spec fn fits(n: int) -> bool {
        isize::MIN <= n <= isize::MAX
    }

    proof fn values(a: Self, b: Self) {
    }

    fn one() -> (value: Self) {
        1
    }

    fn negated(self) -> (value: Self) {
        -self
    }

    fn plus(self, other: Self) -> (value: Self) {
        self + other
    }

    fn at_least(self, other: Self) -> (result: bool) {
        self >= other
    }

    fn widened(self) -> (value: i128) {
        self as i128
    }
}

/// A floating-point number that a component of a vector can be, or that a similarity is given
/// in.
///
/// Nothing is claimed of the arithmetic: the functions that use it say which operation each of
/// their results comes from, and in which order.
pub trait FloatResolution: Copy {
    /// Zero.
    fn zero() -> Self;

    /// One.
    fn one() -> Self;

    /// The number nearest to a count.
    fn from_count(count: usize) -> Self;

    /// The number nearest to an integer.
    fn from_integer(value: i128) -> Self;

    /// `self + other`.
    fn plus(self, other: Self) -> Self;

    /// `self - other`.
    fn minus(self, other: Self) -> Self;

    /// `self * other`.
    fn times(self, other: Self) -> Self;

    /// `self / other`.
    fn over(self, other: Self) -> Self;

    /// The second power.
    fn squared(self) -> Self;

    /// The square root.
    fn square_root(self) -> Self;

    /// The sum of all terms, added in their order.
    fn total(terms: &Vec<Self>) -> Self;

    /// Whether `self == other`.
    fn equals(self, other: Self) -> bool;

    /// Whether `self > other`.
    fn exceeds(self, other: Self) -> bool;

    /// Whether `self >= other`.
    fn at_least(self, other: Self) -> bool;
}

/// A floating-point number that can be drawn from a generator.
///
/// Of what is drawn nothing is claimed but how many numbers there are and what range they are in.
pub trait DrawnResolution<Rng>: FloatResolution {
    /// Random numbers, each no less than minus one and less than one, drawn one after the other
    /// while the generator stays locked.
    fn draw(generator: &RwLock<Rng>, count: usize) -> (draws: Vec<Self>)
        ensures
            draws@.len() == count,
            forall|i: int| 0 <= i < count ==> within_unit_range(#[trigger] draws@[i]),
    ;
}

/// A complex number.
#[derive(Debug)]
pub struct Complex<R> {
    /// The real part.
    pub re: R,
    /// The imaginary part.
    pub im: R,
}

impl<R: Copy> Clone for Complex<R> {
    fn clone(&self) -> (copy: Self)
        ensures
            copy == *self,
    {
        Complex { re: self.re, im: self.im }
    }
}

impl<R: Copy> Copy for Complex<R> {

}

/// A floating-point number whose vectors can be Fourier transformed.
///
/// Of the transforms nothing is claimed but that they keep the number of values.
pub trait FourierResolution: FloatResolution {
    /// The discrete Fourier transform, without any scaling.
    fn forward_transform(values: Vec<Complex<Self>>) -> (spectrum: Vec<Complex<Self>>)
        ensures
            spectrum@.len() == values@.len(),
    ;

    /// The inverse of the discrete Fourier transform, times the number of values.
    fn inverse_transform(values: Vec<Complex<Self>>) -> (out: Vec<Complex<Self>>)
        ensures
            out@.len() == values@.len(),
    ;
}

} // verus!
