//! Answers are the same if and only if their contents are.

use crate::command::Answer;
use crate::scalar::{Distance, Scalar};
use vstd::prelude::*;

verus! {

/// Compares answers by their content, character for character.
#[derive(Clone, Copy, Debug)]
pub struct ExactEqualifier {}

/// The distance between two contents under exact comparison.
pub open spec fn exact_distance<N: Scalar>(a: Seq<char>, b: Seq<char>) -> Distance<N> {
    if a == b {
        Distance::Zero
    } else {
        Distance::One
    }
}

impl ExactEqualifier {
    pub fn new() -> (e: Self)
        ensures
            e == (ExactEqualifier {  }),
    {
        ExactEqualifier {  }
    }

    /// Every answer can be compared.
    pub fn is_valid_answer(&self, _a: &Answer) -> (r: bool)
        ensures
            r,
    {
        true
    }

    /// Zero for equal contents, one for any others.
    pub fn get_distance<N: Scalar>(&self, a: &Answer, b: &Answer) -> (r: Distance<N>)
        ensures
            r == exact_distance::<N>(a.content@, b.content@),
    {
        if a.content == b.content {
            Distance::Zero
        } else {
            Distance::One
        }
    }
}

} // verus!
