//! The number type that coordinates, feedrates and extrusion amounts are held in.
//!
//! The library is written over any [`Scalar`].  What it needs of one is only
//! that every operation depends on nothing but its operands: each operation has
//! a specification counterpart (`plus` and `plus_spec`), and the contracts of
//! the library say which operations are applied to which numbers, in which
//! order.  A program picks the representation, such as double-precision
//! floating point; [`crate::fixed::Fixed`] is one with exact decimal arithmetic.

use vstd::prelude::*;

verus! {

/// A number in millimetres, millimetres per minute, seconds, degrees or radians.
///
/// A type whose operations are verified says what each specification counterpart
/// is.  For any other type the counterparts stay unknown: nothing follows from
/// their defaults.
pub trait Scalar: Copy {
    closed spec fn of_spec(n: i64) -> Self {
        arbitrary()
    }

    closed spec fn count_spec(n: u64) -> Self {
        arbitrary()
    }

    closed spec fn max_value_spec() -> Self {
        arbitrary()
    }

    closed spec fn min_value_spec() -> Self {
        arbitrary()
    }

    closed spec fn infinity_spec() -> Self {
        arbitrary()
    }

    closed spec fn pi_spec() -> Self {
        arbitrary()
    }

    closed spec fn tau_spec() -> Self {
        arbitrary()
    }

    closed spec fn plus_spec(self, other: Self) -> Self {
        arbitrary()
    }

    closed spec fn minus_spec(self, other: Self) -> Self {
        arbitrary()
    }

    closed spec fn times_spec(self, other: Self) -> Self {
        arbitrary()
    }

    closed spec fn over_spec(self, other: Self) -> Self {
        arbitrary()
    }

    closed spec fn negate_spec(self) -> Self {
        arbitrary()
    }

    closed spec fn abs_spec(self) -> Self {
        arbitrary()
    }

    closed spec fn sqrt_spec(self) -> Self {
        arbitrary()
    }

    closed spec fn atan2_spec(self, x: Self) -> Self {
        arbitrary()
    }

    closed spec fn min_spec(self, other: Self) -> Self {
        arbitrary()
    }

    closed spec fn max_spec(self, other: Self) -> Self {
        arbitrary()
    }

    closed spec fn round_spec(self) -> Self {
        arbitrary()
    }

    closed spec fn to_degrees_spec(self) -> Self {
        arbitrary()
    }

    closed spec fn less_spec(self, other: Self) -> bool {
        arbitrary()
    }

    closed spec fn at_most_spec(self, other: Self) -> bool {
        arbitrary()
    }

    closed spec fn same_spec(self, other: Self) -> bool {
        arbitrary()
    }

    closed spec fn is_finite_spec(self) -> bool {
        arbitrary()
    }

    closed spec fn to_u32_spec(self) -> u32 {
        arbitrary()
    }

    closed spec fn parse_spec(text: Seq<char>) -> Option<Self> {
        arbitrary()
    }

    closed spec fn fixed_spec(self, places: nat) -> Seq<char> {
        arbitrary()
    }

    closed spec fn display_spec(self) -> Seq<char> {
        arbitrary()
    }

    /// The whole number `n`.
    fn of(n: i64) -> (result: Self)
        ensures
            result == Self::of_spec(n),
    ;

    /// The whole number `n`, for counts.
    fn count(n: u64) -> (result: Self)
        ensures
            result == Self::count_spec(n),
    ;

    /// The largest finite number.
    fn max_value() -> (result: Self)
        ensures
            result == Self::max_value_spec(),
    ;

    /// The smallest finite number.
    fn min_value() -> (result: Self)
        ensures
            result == Self::min_value_spec(),
    ;

    /// A number that no finite number exceeds.
    fn infinity() -> (result: Self)
        ensures
            result == Self::infinity_spec(),
    ;

    /// Half a turn, in radians.
    fn pi() -> (result: Self)
        ensures
            result == Self::pi_spec(),
    ;

    /// A full turn, in radians.
    fn tau() -> (result: Self)
        ensures
            result == Self::tau_spec(),
    ;

    /// The sum of two numbers.
    fn plus(self, other: Self) -> (result: Self)
        ensures
            result == self.plus_spec(other),
    ;

    /// The difference of two numbers.
    fn minus(self, other: Self) -> (result: Self)
        ensures
            result == self.minus_spec(other),
    ;

    /// The product of two numbers.
    fn times(self, other: Self) -> (result: Self)
        ensures
            result == self.times_spec(other),
    ;

    /// The quotient of two numbers.
    fn over(self, other: Self) -> (result: Self)
        ensures
            result == self.over_spec(other),
    ;

    /// The number with its sign turned.
    fn negate(self) -> (result: Self)
        ensures
            result == self.negate_spec(),
    ;

    /// The magnitude of the number.
    fn abs(self) -> (result: Self)
        ensures
            result == self.abs_spec(),
    ;

    /// The square root.
    fn sqrt(self) -> (result: Self)
        ensures
            result == self.sqrt_spec(),
    ;

    /// The angle of the point with ordinate `self` and abscissa `x`, in radians.
    fn atan2(self, x: Self) -> (result: Self)
        ensures
            result == self.atan2_spec(x),
    ;

    /// The lesser of two numbers.
    fn min(self, other: Self) -> (result: Self)
        ensures
            result == self.min_spec(other),
    ;

    /// The greater of two numbers.
    fn max(self, other: Self) -> (result: Self)
        ensures
            result == self.max_spec(other),
    ;

    /// The nearest whole number, halves away from zero.
    fn round(self) -> (result: Self)
        ensures
            result == self.round_spec(),
    ;

    /// An angle in radians, in degrees.
    fn to_degrees(self) -> (result: Self)
        ensures
            result == self.to_degrees_spec(),
    ;

    /// Whether `self` is less than `other`.
    fn less(self, other: Self) -> (result: bool)
        ensures
            result == self.less_spec(other),
    ;

    /// Whether `self` is at most `other`.
    fn at_most(self, other: Self) -> (result: bool)
        ensures
            result == self.at_most_spec(other),
    ;

    /// Whether the two numbers are equal.
    fn same(self, other: Self) -> (result: bool)
        ensures
            result == self.same_spec(other),
    ;

    /// Whether the number is finite.
    fn is_finite(self) -> (result: bool)
        ensures
            result == self.is_finite_spec(),
    ;

    /// The number as an integer, rounded toward zero and clamped to the range of `u32`.
    fn to_u32(self) -> (result: u32)
        ensures
            result == self.to_u32_spec(),
    ;

    /// The number that `text` spells, or `None` where it spells none.
    fn parse(text: &str) -> (result: Option<Self>)
        ensures
            result == Self::parse_spec(text@),
    ;

    /// The number in decimal notation with `places` digits behind the point.
    fn fixed(self, places: usize) -> (result: String)
        ensures
            result@ == self.fixed_spec(places as nat),
    ;

    /// The number in decimal notation with no more digits than it needs.
    fn display(self) -> (result: String)
        ensures
            result@ == self.display_spec(),
    ;
}

/// The number `n / d`.
pub open spec fn ratio_spec<N: Scalar>(n: i64, d: i64) -> N {
    N::of_spec(n).over_spec(N::of_spec(d))
}

/// The number `n / d`.
pub fn ratio<N: Scalar>(n: i64, d: i64) -> (result: N)
    ensures
        result == ratio_spec::<N>(n, d),
{
    N::of(n).over(N::of(d))
}

/// Zero.
pub open spec fn zero_spec<N: Scalar>() -> N {
    N::of_spec(0)
}

/// Zero.
pub fn zero<N: Scalar>() -> (result: N)
    ensures
        result == zero_spec::<N>(),
{
    N::of(0)
}

/// The sum of the first `n` of the numbers, added from the left.
pub open spec fn sum_of<N: Scalar>(numbers: Seq<N>, n: int) -> N
    decreases n,
{
    if n <= 0 {
        zero_spec()
    } else {
        sum_of(numbers, n - 1).plus_spec(numbers[n - 1])
    }
}

/// The sum of the numbers, added from the left.
pub fn total<N: Scalar>(numbers: &[N]) -> (result: N)
    ensures
        result == sum_of(numbers@, numbers.len() as int),
{
    let mut sum: N = zero();
    let mut i: usize = 0;
    while i < numbers.len()
        invariant
            i <= numbers.len(),
            sum == sum_of(numbers@, i as int),
        decreases numbers.len() - i,
    {
        sum = sum.plus(numbers[i]);
        i = i + 1;
    }
    sum
}

/// Whether a size counts as none: it is below `bound`, or zero.  In a coarse number
/// type the bound may itself be zero.
pub open spec fn vanishes<N: Scalar>(size: N, bound: N) -> bool {
    size.less_spec(bound) || size.at_most_spec(zero_spec())
}

/// Whether a size counts as none.
pub fn is_vanishing<N: Scalar>(size: N, bound: N) -> (result: bool)
    ensures
        result == vanishes(size, bound),
{
    size.less(bound) || size.at_most(zero())
}

/// Whether the optional numbers are both absent, or both present and equal.
pub open spec fn same_option_spec<N: Scalar>(a: Option<N>, b: Option<N>) -> bool {
    match (a, b) {
        (None, None) => true,
        (Some(x), Some(y)) => x.same_spec(y),
        _ => false,
    }
}

/// Whether the optional numbers are both absent, or both present and equal.
pub fn same_option<N: Scalar>(a: Option<N>, b: Option<N>) -> (result: bool)
    ensures
        result == same_option_spec(a, b),
{
    match (a, b) {
        (None, None) => true,
        (Some(x), Some(y)) => x.same(y),
        _ => false,
    }
}

/// The number, or `default` where there is none.
pub open spec fn value_or<N>(value: Option<N>, default: N) -> N {
    match value {
        Some(v) => v,
        None => default,
    }
}

/// The number, or `default` where there is none.
pub fn or_default<N: Scalar>(value: Option<N>, default: N) -> (result: N)
    ensures
        result == value_or(value, default),
{
    match value {
        Some(v) => v,
        None => default,
    }
}

} // verus!
