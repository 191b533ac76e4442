//! Reading the value of a configuration command.

use crate::text::{split, split_text, texts, Separator};
use vstd::prelude::*;
use vstd::string::*;

verus! {

/// A parameter that a comparison method needs.
#[derive(Debug, Clone, Copy, PartialEq, Eq, Structural)]
pub enum ConfigParameter {
    /// `max_distance`, a number.
    MaxDistance,
    /// `allowed_difference`, a number.
    AllowedDifference,
    /// `vec_length`, a count.
    VecLength,
    /// `diff_fn`, the name of a measure.
    DiffFn,
    /// The value of a setting, a number.
    Value,
}

/// The words of a configuration value.
pub open spec fn words(val: Seq<char>) -> Seq<Seq<char>> {
    split(val, Separator::Whitespace, false)
}

/// The value that the words give to the parameter `key`. A word gives one
/// if it holds an equals sign: the key stands before the first, the value
/// after it and before the next. Of several words for one key the last
/// counts.
pub open spec fn parameter(words: Seq<Seq<char>>, key: Seq<char>) -> Option<Seq<char>>
    decreases words.len(),
{
    if words.len() == 0 {
        None
    } else {
        let pieces = split(words.last(), Separator::Symbol('='), true);
        if pieces.len() >= 2 && pieces[0] == key {
            Some(pieces[1])
        } else {
            parameter(words.drop_last(), key)
        }
    }
}

/// Finds the value that the words give to the parameter `key`.
pub fn find_parameter(words: &Vec<String>, key: &str) -> (r: Option<String>)
    ensures
        crate::command::opt_text(r) == parameter(texts(words@), key@),
{
    let wanted = String::from_str(key);
    let ghost all = texts(words@);
    let mut i: usize = words.len();
    assert(all.take(i as int) =~= all);
    while i > 0
        invariant
            i <= words.len(),
            all == texts(words@),
            wanted@ == key@,
            parameter(all, key@) == parameter(all.take(i as int), key@),
        decreases i,
    {
        let pieces = split_text(words[i - 1].as_str(), Separator::Symbol('='), true);
        proof {
            assert(all.take(i as int).last() == words@[i - 1]@);
            assert(all.take(i as int).drop_last() =~= all.take(i - 1));
            assert(texts(pieces@).len() == pieces.len());
        }
        if pieces.len() >= 2 {
            assert(texts(pieces@)[0] == pieces@[0]@);
            assert(texts(pieces@)[1] == pieces@[1]@);
            if pieces[0] == wanted {
                return Some(pieces[1].clone());
            }
        }
        i -= 1;
    }
    None
}

} // verus!
