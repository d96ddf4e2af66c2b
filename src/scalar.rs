use vstd::prelude::*;

verus! {

/// The arithmetic that elimination needs from a matrix's cells.
///
/// The methods carry no contract: what is proved of the code that uses them
/// holds whatever they return.
pub trait Scalar: Copy {
    /// The additive identity.
    fn zero() -> Self;

    /// The multiplicative identity.
    fn one() -> Self;

    /// Whether the value is exactly zero.
    fn is_zero(&self) -> bool;

    /// Whether the magnitude of `self` is strictly greater than that of `other`.
    fn abs_gt(&self, other: &Self) -> bool;

    /// Whether the two values are exactly equal.
    fn same(&self, other: &Self) -> bool;

    /// `self + other`.
    fn plus(&self, other: &Self) -> Self;

    /// `self - other`.
    fn minus(&self, other: &Self) -> Self;

    /// `self * other`.
    fn times(&self, other: &Self) -> Self;

    /// `self / other`.
    fn over(&self, other: &Self) -> Self;

    /// `-self`.
    fn negated(&self) -> Self;
}

} // verus!
