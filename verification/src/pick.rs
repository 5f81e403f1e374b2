//! Random choice among words, by the `rand` crate.

use rand::rngs::StdRng;
use rand::seq::IteratorRandom;
use rand::seq::SliceRandom;
use vstd::prelude::*;

verus! {

/// The random number generator that callers seed and hand in. Nothing is
/// known of its state.
#[verifier::external_type_specification]
#[verifier::external_body]
pub struct ExStdRng(StdRng);

/// `SliceRandom::choose` of `rand`, on a slice of words.
///
/// Believed of it: from an empty slice it returns `None`; from any other it
/// returns a reference to one of the slice's elements. Which one depends on
/// the generator, and nothing is claimed of that.
#[verifier::external_body]
pub(crate) fn choose_from_slice<'a>(words: &'a [String], rng: &mut StdRng) -> (picked: Option<
    &'a String,
>)
    ensures
        match picked {
            Some(word) => exists|i: int| 0 <= i < words@.len() && words@[i] == *word,
            None => words@.len() == 0,
        },
{
    words.choose(rng)
}

/// `IteratorRandom::choose` of `rand`, on the iterator over a slice of words.
///
/// Believed of it: it returns `None` if and only if the iterator is empty,
/// and otherwise one of the items that the iterator yields, here a reference
/// to one of the slice's elements. Which one depends on the generator, and
/// nothing is claimed of that.
#[verifier::external_body]
pub(crate) fn choose_from_iter<'a>(words: &'a [String], rng: &mut StdRng) -> (picked: Option<
    &'a String,
>)
    ensures
        match picked {
            Some(word) => exists|i: int| 0 <= i < words@.len() && words@[i] == *word,
            None => words@.len() == 0,
        },
{
    words.iter().choose(rng)
}

} // verus!
