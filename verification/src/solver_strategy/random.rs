//! The strategy that proposes any word, whatever the game has told.

use crate::game::{words_of, Feedback, WordleGameState};
use crate::pick::choose_from_slice;
use crate::solver_strategy::SolverStrategy;
use rand::rngs::StdRng;
use vstd::prelude::*;

verus! {

/// Proposes a word of its dictionary that its generator picks, and learns
/// nothing from the feedback.
pub struct RandomWordleSolver {
    dictionary: Vec<String>,
    rng: StdRng,
}

impl RandomWordleSolver {
    /// A solver that proposes words of `dictionary`, picked by `rng`.
    pub fn new(dictionary: Vec<String>, rng: StdRng) -> (solver: Self)
        ensures
            solver.candidates() == words_of(dictionary@),
    {
        Self { dictionary, rng }
    }
}

impl SolverStrategy for RandomWordleSolver {
    closed spec fn candidates(&self) -> Set<Seq<char>> {
        words_of(self.dictionary@)
    }

    open spec fn narrowed(&self, history: Seq<Feedback>) -> Set<Seq<char>> {
        self.candidates()
    }

    open spec fn can_go_on(&self, secret: Seq<char>) -> bool {
        exists|word: Seq<char>| self.candidates().contains(word)
    }

    proof fn lemma_can_go_on(&self, secret: Seq<char>, history: Seq<Feedback>) {
        let word = choose|word: Seq<char>| self.candidates().contains(word);
        assert(self.narrowed(history).contains(word));
    }

    fn next_guess(&mut self, game_state: &WordleGameState) -> (guess: String) {
        proof {
            let word = choose|word: Seq<char>| self.narrowed(game_state.history()).contains(word);
            assert(words_of(self.dictionary@).contains(word));
        }
        choose_from_slice(self.dictionary.as_slice(), &mut self.rng).unwrap().clone()
    }
}

} // verus!
