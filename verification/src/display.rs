//! Feedback as a row of coloured tiles.

use crate::game::{Feedback, GuessResult, LetterResult};
use vstd::prelude::*;
use vstd::string::StringExecFns;

verus! {

/// The tile that shows a result: a green square for a letter in its place, a
/// yellow one for a letter that is elsewhere, a black one for the rest.
pub open spec fn tile(result: LetterResult) -> Seq<char> {
    match result {
        LetterResult::CorrectPlacement => "\u{1F7E9}"@,
        LetterResult::CorrectLetter => "\u{1F7E8}"@,
        LetterResult::IncorrectLetter => "\u{2B1B}\u{FE0F}"@,
    }
}

/// The tiles of the first `n` results of `feedback`, in order.
pub open spec fn tiles(feedback: Feedback, n: int) -> Seq<char>
    decreases n,
{
    if n <= 0 {
        Seq::empty()
    } else {
        tiles(feedback, n - 1) + tile(feedback[n - 1].1)
    }
}

/// The row of tiles that shows `letter_results`, one tile for each letter.
pub fn guess_colors(letter_results: &GuessResult) -> (row: String)
    ensures
        row@ == tiles(letter_results@, letter_results@.len() as int),
{
    let mut row = String::new();
    let mut i: usize = 0;
    while i < letter_results.len()
        invariant
            i <= letter_results.len(),
            row@ == tiles(letter_results@, i as int),
        decreases letter_results.len() - i,
    {
        let shown = match letter_results[i].1 {
            LetterResult::CorrectPlacement => "\u{1F7E9}",
            LetterResult::CorrectLetter => "\u{1F7E8}",
            LetterResult::IncorrectLetter => "\u{2B1B}\u{FE0F}",
        };
        row.append(shown);
        i += 1;
    }
    row
}

} // verus!
