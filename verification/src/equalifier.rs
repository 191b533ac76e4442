//! The ways in which two answers can be compared.

use crate::command::Answer;
use crate::equalifier::exact_equalifier::{exact_distance, ExactEqualifier};
use crate::equalifier::numeric_vec_equalifier::{
    all_numbers, fields, vec_distance, NumericVecEqualifier,
};
use crate::scalar::{read_number, Distance, Scalar};
use crate::text::{is_number_text, number_text};
use vstd::prelude::*;

pub mod exact_equalifier;
pub mod numeric_vec_equalifier;

verus! {

/// The distance of two contents as numbers: the absolute difference of the
/// two numbers, divided by the largest distance and moved into the range
/// from zero to one; one where a content writes no number.
pub open spec fn numeric_distance<N: Scalar>(
    e: NumericEqualifier<N>,
    a: Seq<char>,
    b: Seq<char>,
) -> Distance<N> {
    if number_text(a) && number_text(b) {
        Distance::Measured(
            N::written(a).difference(N::written(b)).absolute().quotient(e.max_distance).clamped(
                N::ratio(0, 1),
                N::ratio(1, 1),
            ),
        )
    } else {
        Distance::One
    }
}

/// The distance of two contents under a comparison.
pub open spec fn distance_of<N: Scalar>(e: Equalifier<N>, a: Seq<char>, b: Seq<char>) -> Distance<
    N,
> {
    match e {
        Equalifier::Exact(_) => exact_distance::<N>(a, b),
        Equalifier::Numeric(n) => numeric_distance(n, a, b),
        Equalifier::NumericVec(v) => vec_distance(v, a, b),
    }
}

/// Under the comparison of numbers a content that writes a number is at
/// distance zero from itself, for a number type that takes the number from
/// itself to zero, and zero to zero by its absolute value, by division by the
/// largest distance and by the move into the range from zero to one.
pub proof fn law_same_number_zero<N: Scalar>(e: NumericEqualifier<N>, x: Seq<char>)
    requires
        number_text(x),
        N::written(x).difference(N::written(x)) == N::ratio(0, 1),
        N::ratio(0, 1).absolute() == N::ratio(0, 1),
        N::ratio(0, 1).quotient(e.max_distance) == N::ratio(0, 1),
        N::ratio(0, 1).clamped(N::ratio(0, 1), N::ratio(1, 1)) == N::ratio(0, 1),
    ensures
        distance_of(Equalifier::Numeric(e), x, x) == Distance::Measured(N::ratio(0, 1)),
        distance_of(Equalifier::Numeric(e), x, x).number() == Distance::<N>::Zero.number(),
{
}

/// Compares answers that each write one number.
#[derive(Clone, Copy, Debug)]
pub struct NumericEqualifier<N: Scalar> {
    pub max_distance: N,
}

impl<N: Scalar> NumericEqualifier<N> {
    pub fn new(max_distance: N) -> (e: Self)
        ensures
            e.max_distance == max_distance,
    {
        NumericEqualifier { max_distance }
    }

    /// Whether the answer writes a number.
    pub fn is_valid_answer(&self, a: &Answer) -> (r: bool)
        ensures
            r == number_text(a.content@),
    {
        is_number_text(a.content.as_str())
    }

    /// The absolute difference of the two numbers, divided by the largest
    /// distance and moved into the range from zero to one: a measured
    /// distance. One where an answer writes no number.
    pub fn get_distance(&self, a: &Answer, b: &Answer) -> (r: Distance<N>)
        ensures
            r == numeric_distance(*self, a.content@, b.content@),
    {
        let x = match read_number::<N>(a.content.as_str()) {
            Some(v) => v,
            None => {
                return Distance::One;
            },
        };
        let y = match read_number::<N>(b.content.as_str()) {
            Some(v) => v,
            None => {
                return Distance::One;
            },
        };
        Distance::Measured(
            x.minus(y).magnitude().over(self.max_distance).clamp_between(
                N::from_ratio(0, 1),
                N::from_ratio(1, 1),
            ),
        )
    }
}

/// The comparison in use.
#[derive(Clone, Copy, Debug)]
pub enum Equalifier<N: Scalar> {
    Exact(ExactEqualifier),
    Numeric(NumericEqualifier<N>),
    NumericVec(NumericVecEqualifier<N>),
}

impl<N: Scalar> Equalifier<N> {
    /// Whether the answer is well formed for this comparison: every answer
    /// under exact comparison; one that writes a number under the
    /// comparison of numbers; one that writes as many numbers as the vectors
    /// are long under the comparison of vectors.
    pub fn is_valid_answer(&self, a: &Answer) -> (r: bool)
        ensures
            r == match *self {
                Equalifier::Exact(_) => true,
                Equalifier::Numeric(_) => number_text(a.content@),
                Equalifier::NumericVec(e) => all_numbers(fields(a.content@)) && fields(
                    a.content@,
                ).len() == e.vec_length,
            },
    {
        match self {
            Equalifier::Exact(e) => e.is_valid_answer(a),
            Equalifier::Numeric(e) => e.is_valid_answer(a),
            Equalifier::NumericVec(e) => e.is_valid_answer(a),
        }
    }

    /// The distance between two answers under this comparison.
    pub fn get_distance(&self, a: &Answer, b: &Answer) -> (r: Distance<N>)
        ensures
            r == distance_of(*self, a.content@, b.content@),
    {
        match self {
            Equalifier::Exact(e) => e.get_distance(a, b),
            Equalifier::Numeric(e) => e.get_distance(a, b),
            Equalifier::NumericVec(e) => e.get_distance(a, b),
        }
    }

    /// Whether two answers belong to one cluster: their distance is below
    /// one.
    pub fn similar(&self, a: &Answer, b: &Answer) -> (r: bool)
        ensures
            r == distance_of(*self, a.content@, b.content@).close(),
    {
        self.get_distance(a, b).is_close()
    }
}

} // verus!
