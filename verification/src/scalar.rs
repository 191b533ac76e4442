//! The numbers that the graph computes with.

use crate::text::{is_number_text, number_text};
use vstd::prelude::*;

verus! {

/// A text, as contracts see it.
pub type Text = Seq<char>;

/// A number type for qualities, strengths, confidences, weights and
/// distances. The graph is written against this interface.
///
/// Each operation has a name in contracts, and the operation returns what
/// its name gives: an operation is a function of its arguments. Nothing else
/// is promised of a result, so what the contracts state holds for every
/// number type whose operations are functions. Whether a text writes a
/// number is for the library to say: `parse` is handed only texts that do.
pub trait Scalar: Copy {
    /// The number `numer / denom`.
    spec fn ratio(numer: u32, denom: u32) -> Self;

    /// The number `count`.
    spec fn count(count: usize) -> Self;

    /// The number that `text` writes.
    spec fn written(text: Text) -> Self;

    /// `self + other`.
    spec fn sum_of(self, other: Self) -> Self;

    /// `self - other`.
    spec fn difference(self, other: Self) -> Self;

    /// `self * other`.
    spec fn product(self, other: Self) -> Self;

    /// `self / other`.
    spec fn quotient(self, other: Self) -> Self;

    /// The absolute value of `self`.
    spec fn absolute(self) -> Self;

    /// The square root of `self`.
    spec fn square_root(self) -> Self;

    /// The logarithm of `self` to the base `base`.
    spec fn logarithm(self, base: Self) -> Self;

    /// `self`, moved into the range from `low` to `high`.
    spec fn clamped(self, low: Self, high: Self) -> Self;

    /// Whether `self > other`.
    spec fn above(self, other: Self) -> bool;

    /// Whether `self == other` as numbers.
    spec fn same(self, other: Self) -> bool;

    /// The number `numer / denom`.
    fn from_ratio(numer: u32, denom: u32) -> (r: Self)
        ensures
            r == Self::ratio(numer, denom),
    ;

    /// The number `count`.
    fn from_count(count: usize) -> (r: Self)
        ensures
            r == Self::count(count),
    ;

    /// The number that `text` writes.
    fn parse(text: &str) -> (r: Self)
        requires
            number_text(text@),
        ensures
            r == Self::written(text@),
    ;

    /// `self + other`.
    fn plus(self, other: Self) -> (r: Self)
        ensures
            r == self.sum_of(other),
    ;

    /// `self - other`.
    fn minus(self, other: Self) -> (r: Self)
        ensures
            r == self.difference(other),
    ;

    /// `self * other`.
    fn times(self, other: Self) -> (r: Self)
        ensures
            r == self.product(other),
    ;

    /// `self / other`.
    fn over(self, other: Self) -> (r: Self)
        ensures
            r == self.quotient(other),
    ;

    /// The absolute value of `self`.
    fn magnitude(self) -> (r: Self)
        ensures
            r == self.absolute(),
    ;

    /// The square root of `self`.
    fn root(self) -> (r: Self)
        ensures
            r == self.square_root(),
    ;

    /// The logarithm of `self` to the base `base`.
    fn log_base(self, base: Self) -> (r: Self)
        ensures
            r == self.logarithm(base),
    ;

    /// `self`, moved into the range from `low` to `high`.
    fn clamp_between(self, low: Self, high: Self) -> (r: Self)
        ensures
            r == self.clamped(low, high),
    ;

    /// Whether `self > other`.
    fn exceeds(self, other: Self) -> (r: bool)
        ensures
            r == self.above(other),
    ;

    /// Whether `self == other` as numbers.
    fn equals(self, other: Self) -> (r: bool)
        ensures
            r == self.same(other),
    ;
}

/// The number that `text` writes, if it writes one.
pub open spec fn number_of<N: Scalar>(text: Seq<char>) -> Option<N> {
    if number_text(text) {
        Some(N::written(text))
    } else {
        None
    }
}

/// Reads the number that `text` writes, if it writes one.
pub fn read_number<N: Scalar>(text: &str) -> (r: Option<N>)
    ensures
        r == number_of::<N>(text@),
{
    if is_number_text(text) {
        Some(N::parse(text))
    } else {
        None
    }
}

/// How far apart two answers are, from zero (the same) to one (as different
/// as can be). The two ends are kept apart from measured values, so that a
/// contract can speak of them.
#[derive(Clone, Copy, Debug)]
pub enum Distance<N: Scalar> {
    Zero,
    One,
    Measured(N),
}

impl<N: Scalar> Distance<N> {
    /// The distance as a number.
    pub open spec fn number(self) -> N {
        match self {
            Distance::Zero => N::ratio(0, 1),
            Distance::One => N::ratio(1, 1),
            Distance::Measured(v) => v,
        }
    }

    /// Whether the distance is below one.
    pub open spec fn close(self) -> bool {
        match self {
            Distance::Zero => true,
            Distance::One => false,
            Distance::Measured(v) => N::ratio(1, 1).above(v),
        }
    }

    /// The distance as a number.
    pub fn value(self) -> (r: N)
        ensures
            r == self.number(),
    {
        match self {
            Distance::Zero => N::from_ratio(0, 1),
            Distance::One => N::from_ratio(1, 1),
            Distance::Measured(v) => v,
        }
    }

    /// Whether the distance is below one: the two answers belong together.
    pub fn is_close(self) -> (r: bool)
        ensures
            r == self.close(),
    {
        match self {
            Distance::Zero => true,
            Distance::One => false,
            Distance::Measured(v) => N::from_ratio(1, 1).exceeds(v),
        }
    }
}

/// How much a question moves the quality of its sources. A question that
/// has nothing to compare exerts no weight; that case is kept apart from
/// measured weights, so that a contract can speak of it.
#[derive(Clone, Copy, Debug)]
pub enum Weight<N: Scalar> {
    Nothing,
    Measured(N),
}

impl<N: Scalar> Weight<N> {
    /// The weight as a number: zero for no weight.
    pub open spec fn number(self) -> N {
        match self {
            Weight::Nothing => N::ratio(0, 1),
            Weight::Measured(v) => v,
        }
    }

    /// The weight as a number: zero for no weight.
    pub fn value(self) -> (r: N)
        ensures
            r == self.number(),
    {
        match self {
            Weight::Nothing => N::from_ratio(0, 1),
            Weight::Measured(v) => v,
        }
    }
}

} // verus!
