//! The solver: a game and a strategy that plays it to its end.

use crate::constraint::{lemma_secret_satisfies_feedback, satisfies, satisfies_all};
use crate::game::{is_feedback_of, outcome, score, GameCondition, WordleGame};
use crate::solver_strategy::SolverStrategy;
use vstd::prelude::*;

verus! {

/// A game together with the strategy that plays it.
pub struct WordleSolver<S: SolverStrategy> {
    game: WordleGame,
    strategy: S,
}

/// How a game ended.
#[derive(Debug)]
pub struct WordleGameScore {
    pub num_guesses: usize,
    pub result: GameCondition,
}

/// In a sound game the secret is consistent with all the feedback given.
pub proof fn lemma_secret_consistent_with_history(game: WordleGame)
    requires
        game.wf(),
    ensures
        satisfies_all(game.secret(), game.history()),
{
    assert forall|i: int| 0 <= i < game.history().len() implies satisfies(
        game.secret(),
        #[trigger] game.history()[i],
    ) by {
        assert(is_feedback_of(game.history()[i], game.dictionary(), game.secret()));
        let guess = choose|g: Seq<char>| #[trigger]
            game.dictionary().contains(g) && game.history()[i] == score(g, game.secret());
        lemma_secret_satisfies_feedback(guess, game.secret());
    }
}

impl<S: SolverStrategy> WordleSolver<S> {
    /// The game that is played.
    pub closed spec fn game(&self) -> WordleGame {
        self.game
    }

    /// The strategy that plays it.
    pub closed spec fn strategy(&self) -> S {
        self.strategy
    }

    /// The solver is sound: its game is.
    pub open spec fn wf(&self) -> bool {
        self.game().wf()
    }

    /// The solver can play its game to the end. Of a game that is over this
    /// asks nothing. For a game that is going on, the game accepts every word
    /// that the strategy may propose, and the strategy can go on.
    pub open spec fn can_play(&self) -> bool {
        self.game().condition() == GameCondition::Playing ==> {
            &&& self.strategy().candidates().subset_of(self.game().dictionary())
            &&& self.strategy().can_go_on(self.game().secret())
        }
    }

    /// A solver that plays `game` by `strategy`.
    pub fn new(game: WordleGame, strategy: S) -> (solver: Self)
        requires
            game.wf(),
        ensures
            solver.wf(),
            solver.game() == game,
            solver.strategy() == strategy,
    {
        WordleSolver { game, strategy }
    }

    /// Plays one turn. If the game is over, says how it ended and after how
    /// many guesses, and changes nothing. If it is going on, asks the
    /// strategy for a guess for the game as it stands, makes that guess, and
    /// returns `None`.
    pub fn play_turn(&mut self) -> (over: Option<WordleGameScore>)
        requires
            old(self).wf(),
            old(self).can_play(),
        ensures
            final(self).wf(),
            final(self).can_play(),
            final(self).game().dictionary() == old(self).game().dictionary(),
            final(self).game().secret() == old(self).game().secret(),
            final(self).game().max_guesses() == old(self).game().max_guesses(),
            old(self).game().condition() != GameCondition::Playing ==> {
                &&& *final(self) == *old(self)
                &&& over matches Some(score)
                &&& score.result == old(self).game().condition()
                &&& score.num_guesses == old(self).game().history().len()
            },
            old(self).game().condition() == GameCondition::Playing ==> {
                &&& over is None
                &&& final(self).strategy().candidates() == old(self).strategy().narrowed(
                    old(self).game().history(),
                )
                &&& final(self).strategy().candidates().subset_of(
                    old(self).strategy().candidates(),
                )
                &&& exists|word: Seq<char>| #[trigger]
                    final(self).strategy().candidates().contains(word)
                        && final(self).game().history() == old(self).game().history().push(
                        score(word, old(self).game().secret()),
                    )
            },
    {
        let game_state = self.game.game_state();
        if game_state.condition != GameCondition::Playing {
            return Some(
                WordleGameScore {
                    num_guesses: game_state.guesses.len(),
                    result: game_state.condition,
                },
            );
        }
        proof {
            lemma_secret_consistent_with_history(self.game);
            self.strategy.lemma_can_go_on(self.game.secret(), self.game.history());
        }
        let guess = self.strategy.next_guess(&game_state);
        proof {
            assert(self.strategy.can_go_on(self.game.secret()));
            assert(self.strategy.candidates().contains(guess@));
        }
        match self.game.make_guess(guess.as_str()) {
            Ok(_) => {},
            Err(_) => {},
        }
        None
    }

    /// Plays the game to its end, turn by turn: while it is going on, asks
    /// the strategy for a guess and makes it. Returns how the game ended and
    /// after how many guesses. A game that is over is left as it is, and so
    /// is the strategy.
    pub fn run_game(&mut self) -> (score: WordleGameScore)
        requires
            old(self).wf(),
            old(self).can_play(),
        ensures
            final(self).wf(),
            final(self).can_play(),
            final(self).game().dictionary() == old(self).game().dictionary(),
            final(self).game().secret() == old(self).game().secret(),
            final(self).game().max_guesses() == old(self).game().max_guesses(),
            old(self).game().condition() != GameCondition::Playing ==> *final(self) == *old(self),
            final(self).strategy().candidates().subset_of(old(self).strategy().candidates()),
            old(self).game().history().len() <= final(self).game().history().len(),
            old(self).game().history() =~= final(self).game().history().take(
                old(self).game().history().len() as int,
            ),
            forall|k: int|
                old(self).game().history().len() <= k < final(self).game().history().len()
                    ==> outcome(
                    #[trigger] final(self).game().history().take(k),
                    final(self).game().max_guesses(),
                ) == GameCondition::Playing,
            forall|k: int|
                old(self).game().history().len() <= k < final(self).game().history().len()
                    ==> is_feedback_of(
                    #[trigger] final(self).game().history()[k],
                    old(self).strategy().candidates(),
                    old(self).game().secret(),
                ),
            score.result == final(self).game().condition(),
            score.result != GameCondition::Playing,
            score.num_guesses == final(self).game().history().len(),
    {
        let ghost start = self.game.history();
        loop
            invariant
                self.wf(),
                self.can_play(),
                self.game().dictionary() == old(self).game().dictionary(),
                self.game().secret() == old(self).game().secret(),
                self.game().max_guesses() == old(self).game().max_guesses(),
                old(self).game().condition() != GameCondition::Playing ==> *self == *old(self),
                self.strategy().candidates().subset_of(old(self).strategy().candidates()),
                start == old(self).game().history(),
                start.len() <= self.game().history().len(),
                start =~= self.game().history().take(start.len() as int),
                forall|k: int|
                    start.len() <= k < self.game().history().len() ==> outcome(
                        #[trigger] self.game().history().take(k),
                        self.game().max_guesses(),
                    ) == GameCondition::Playing,
                forall|k: int|
                    start.len() <= k < self.game().history().len() ==> is_feedback_of(
                        #[trigger] self.game().history()[k],
                        old(self).strategy().candidates(),
                        old(self).game().secret(),
                    ),
            decreases self.game().max_guesses() - self.game().history().len(),
        {
            let ghost before = self.game.history();
            let ghost pool = self.strategy.candidates();
            match self.play_turn() {
                Some(score) => {
                    return score;
                },
                None => {
                    proof {
                        let after = self.game.history();
                        let word = choose|word: Seq<char>| #[trigger]
                            self.strategy().candidates().contains(word) && after == before.push(
                                score(word, self.game().secret()),
                            );
                        assert(pool.contains(word));
                        assert(after.take(before.len() as int) =~= before);
                        assert forall|k: int| start.len() <= k < after.len() implies outcome(
                            #[trigger] after.take(k),
                            self.game().max_guesses(),
                        ) == GameCondition::Playing by {
                            if k < before.len() {
                                assert(after.take(k) =~= before.take(k));
                            }
                        }
                        assert forall|k: int| start.len() <= k < after.len() implies is_feedback_of(
                            #[trigger] after[k],
                            old(self).strategy().candidates(),
                            old(self).game().secret(),
                        ) by {
                            if k < before.len() {
                                assert(after[k] == before[k]);
                            } else {
                                assert(old(self).strategy().candidates().contains(word));
                            }
                        }
                    }
                },
            }
        }
    }
}

} // verus!
