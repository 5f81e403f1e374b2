//! Strategies that propose the next guess.

use crate::constraint::satisfies_all;
use crate::game::{Feedback, WordleGameState};
use vstd::prelude::*;

pub mod narrowing_random;
pub mod random;

verus! {

/// A strategy proposes the next guess from a pool of candidate words, which
/// it may narrow by what the game has told so far.
pub trait SolverStrategy {
    /// The words that the strategy may propose.
    spec fn candidates(&self) -> Set<Seq<char>>;

    /// The words that are left of the candidates once the strategy has looked
    /// at `history`.
    spec fn narrowed(&self, history: Seq<Feedback>) -> Set<Seq<char>>;

    /// The strategy can go on in a game whose secret is `secret`: it will
    /// not run out of words, whatever feedback that game shows it.
    spec fn can_go_on(&self, secret: Seq<char>) -> bool;

    /// A strategy that can go on has a word left once it has looked at a
    /// history with which the secret is consistent.
    proof fn lemma_can_go_on(&self, secret: Seq<char>, history: Seq<Feedback>)
        requires
            self.can_go_on(secret),
            satisfies_all(secret, history),
        ensures
            exists|word: Seq<char>| self.narrowed(history).contains(word),
    ;

    /// Proposes a guess for the game in `game_state`: one of the candidates
    /// that are left once the strategy has looked at the history. Those are
    /// its candidates from then on. A strategy that could go on still can,
    /// if the secret is consistent with the history.
    fn next_guess(&mut self, game_state: &WordleGameState) -> (guess: String)
        requires
            exists|word: Seq<char>| old(self).narrowed(game_state.history()).contains(word),
        ensures
            final(self).candidates() == old(self).narrowed(game_state.history()),
            final(self).candidates().subset_of(old(self).candidates()),
            final(self).candidates().contains(guess@),
            forall|secret: Seq<char>|
                old(self).can_go_on(secret) && satisfies_all(secret, game_state.history())
                    ==> #[trigger] final(self).can_go_on(secret),
    ;
}

} // verus!
