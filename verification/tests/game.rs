use rand::rngs::StdRng;
use rand::SeedableRng;
use wordle_solver::game::LetterResult::{CorrectLetter, CorrectPlacement, IncorrectLetter};
use wordle_solver::game::{GameCondition, GuessError, WordleGame};

fn words(list: &[&str]) -> Vec<String> {
    list.iter().map(|w| w.to_string()).collect()
}

#[test]
fn new_game_is_playing_with_empty_history() {
    let game = WordleGame::new(&words(&["crate", "would", "trace"]), "crate");
    assert_eq!(game.game_condition(), GameCondition::Playing);
    let state = game.game_state();
    assert!(state.guesses.is_empty());
    assert_eq!(state.condition, GameCondition::Playing);
}

#[test]
fn plays_from_first_guess_to_win() {
    let mut game = WordleGame::new(&words(&["crate", "would", "trace"]), "crate");

    assert_eq!(game.make_guess("would"), Ok(()));
    {
        let state = game.game_state();
        assert_eq!(state.guesses.len(), 1);
        assert_eq!(
            state.guesses[0],
            vec![
                ('w', IncorrectLetter),
                ('o', IncorrectLetter),
                ('u', IncorrectLetter),
                ('l', IncorrectLetter),
                ('d', IncorrectLetter),
            ]
        );
        assert_eq!(state.condition, GameCondition::Playing);
    }

    assert_eq!(game.make_guess("trace"), Ok(()));
    {
        let state = game.game_state();
        assert_eq!(state.guesses.len(), 2);
        assert_eq!(
            state.guesses[1],
            vec![
                ('t', CorrectLetter),
                ('r', CorrectPlacement),
                ('a', CorrectPlacement),
                ('c', CorrectLetter),
                ('e', CorrectPlacement),
            ]
        );
        assert_eq!(state.condition, GameCondition::Playing);
    }

    assert_eq!(game.make_guess("crate"), Ok(()));
    {
        let state = game.game_state();
        assert_eq!(state.guesses.len(), 3);
        assert_eq!(
            state.guesses[2],
            vec![
                ('c', CorrectPlacement),
                ('r', CorrectPlacement),
                ('a', CorrectPlacement),
                ('t', CorrectPlacement),
                ('e', CorrectPlacement),
            ]
        );
        assert_eq!(state.condition, GameCondition::Win);
    }
    assert_eq!(game.game_condition(), GameCondition::Win);
}

#[test]
fn unknown_word_is_refused_and_changes_nothing() {
    let mut game = WordleGame::new(&words(&["crate", "would", "trace"]), "crate");
    assert_eq!(game.make_guess("slate"), Err(GuessError::UnknownWord));
    assert_eq!(game.make_guess(""), Err(GuessError::UnknownWord));
    assert_eq!(game.game_state().guesses.len(), 0);
    assert_eq!(game.game_condition(), GameCondition::Playing);
    // the refused guess has used none of the budget
    for _ in 0..6 {
        assert_eq!(game.make_guess("would"), Ok(()));
    }
    assert_eq!(game.game_state().guesses.len(), 6);
}

#[test]
fn budget_of_six_is_enforced() {
    let dictionary =
        words(&["crate", "would", "trace", "slate", "salad", "tares", "stare", "hello"]);
    let mut game = WordleGame::new(&dictionary, "crate");
    let wrong = ["would", "trace", "slate", "salad", "tares", "stare"];
    for (made, guess) in wrong.iter().enumerate() {
        assert_eq!(game.game_condition(), GameCondition::Playing);
        assert_eq!(game.game_state().guesses.len(), made);
        assert_eq!(game.make_guess(guess), Ok(()));
    }
    assert_eq!(game.game_condition(), GameCondition::Loss);
    assert_eq!(game.game_state().condition, GameCondition::Loss);
    assert_eq!(game.make_guess("hello"), Err(GuessError::GuessBudgetExhausted));
    assert_eq!(game.make_guess("crate"), Err(GuessError::GuessBudgetExhausted));
    assert_eq!(game.game_state().guesses.len(), 6);
    assert_eq!(game.game_condition(), GameCondition::Loss);
}

#[test]
fn unknown_word_is_reported_before_the_spent_budget() {
    let mut game = WordleGame::new(&words(&["crate", "would"]), "crate");
    for _ in 0..6 {
        assert_eq!(game.make_guess("would"), Ok(()));
    }
    assert_eq!(game.make_guess("zzzzz"), Err(GuessError::UnknownWord));
    assert_eq!(game.make_guess("would"), Err(GuessError::GuessBudgetExhausted));
}

#[test]
fn win_with_the_last_guess_of_the_budget_is_a_win() {
    let mut game = WordleGame::new(&words(&["crate", "would"]), "crate");
    for _ in 0..5 {
        assert_eq!(game.make_guess("would"), Ok(()));
    }
    assert_eq!(game.game_condition(), GameCondition::Playing);
    assert_eq!(game.make_guess("crate"), Ok(()));
    assert_eq!(game.game_condition(), GameCondition::Win);
    assert_eq!(game.make_guess("would"), Err(GuessError::GuessBudgetExhausted));
    assert_eq!(game.game_condition(), GameCondition::Win);
}

#[test]
fn won_game_stays_won() {
    let mut game = WordleGame::new(&words(&["crate", "would"]), "crate");
    assert_eq!(game.make_guess("crate"), Ok(()));
    assert_eq!(game.game_condition(), GameCondition::Win);
    // the budget is not spent, so the guess is taken; the game stays won
    assert_eq!(game.make_guess("would"), Ok(()));
    assert_eq!(game.game_state().guesses.len(), 2);
    assert_eq!(game.game_condition(), GameCondition::Win);
}

#[test]
fn guess_errors_have_their_messages() {
    assert_eq!(GuessError::UnknownWord.message(), "Invalid word");
    assert_eq!(GuessError::GuessBudgetExhausted.message(), "No more guesses available");
}

#[test]
fn dictionary_may_list_a_word_twice() {
    let mut game = WordleGame::new(&words(&["crate", "would", "crate"]), "crate");
    assert_eq!(game.make_guess("would"), Ok(()));
    assert_eq!(game.make_guess("crate"), Ok(()));
    assert_eq!(game.game_condition(), GameCondition::Win);
}

#[test]
fn random_secret_is_the_only_word_of_a_dictionary_of_one() {
    let mut rng = StdRng::seed_from_u64(1);
    let mut game = WordleGame::new_with_random_secret_word(&words(&["crate"]), &mut rng);
    assert_eq!(game.game_condition(), GameCondition::Playing);
    assert_eq!(game.make_guess("crate"), Ok(()));
    assert_eq!(game.game_condition(), GameCondition::Win);
}

#[test]
fn random_secret_is_a_word_of_the_dictionary() {
    let dictionary = words(&["crate", "would", "trace", "slate", "salad"]);
    for seed in 0..20 {
        let mut rng = StdRng::seed_from_u64(seed);
        let mut game = WordleGame::new_with_random_secret_word(&dictionary, &mut rng);
        let mut wins = 0;
        for word in &dictionary {
            assert_eq!(game.make_guess(word), Ok(()));
            let state = game.game_state();
            if state.guesses.last().unwrap().iter().all(|(_, r)| *r == CorrectPlacement) {
                wins += 1;
            }
        }
        // exactly one word of the dictionary is the secret
        assert_eq!(wins, 1);
        assert_eq!(game.game_condition(), GameCondition::Win);
    }
}

#[test]
fn random_secret_follows_the_generator() {
    let dictionary = words(&["crate", "would", "trace", "slate", "salad", "tares", "stare"]);
    let mut first = StdRng::seed_from_u64(42);
    let mut second = StdRng::seed_from_u64(42);
    let mut a = WordleGame::new_with_random_secret_word(&dictionary, &mut first);
    let mut b = WordleGame::new_with_random_secret_word(&dictionary, &mut second);
    for word in &dictionary[..6] {
        assert_eq!(a.make_guess(word), Ok(()));
        assert_eq!(b.make_guess(word), Ok(()));
    }
    assert_eq!(a.game_state().guesses, b.game_state().guesses);
}
