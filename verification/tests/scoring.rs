use wordle_solver::game::LetterResult::{CorrectLetter, CorrectPlacement, IncorrectLetter};
use wordle_solver::game::WordleGame;

#[test]
fn repeated_correct_letter_picks_first() {
    let guess = "slate";
    let secret = "salad";
    let expected_result = vec![
        ('s', CorrectPlacement),
        ('l', CorrectLetter),
        ('a', CorrectLetter),
        ('t', IncorrectLetter),
        ('e', IncorrectLetter),
    ];
    assert_eq!(WordleGame::check_guess(guess, secret), expected_result)
}

#[test]
fn all_incorrect() {
    let guess = "would";
    let secret = "crate";
    let expected_result = vec![
        ('w', IncorrectLetter),
        ('o', IncorrectLetter),
        ('u', IncorrectLetter),
        ('l', IncorrectLetter),
        ('d', IncorrectLetter),
    ];
    assert_eq!(WordleGame::check_guess(guess, secret), expected_result)
}

#[test]
fn all_correct_placement() {
    let guess = "slate";
    let secret = "slate";
    let expected_result = vec![
        ('s', CorrectPlacement),
        ('l', CorrectPlacement),
        ('a', CorrectPlacement),
        ('t', CorrectPlacement),
        ('e', CorrectPlacement),
    ];
    assert_eq!(WordleGame::check_guess(guess, secret), expected_result)
}

#[test]
fn all_correct_letter() {
    let guess = "tares";
    let secret = "stare";
    let expected_result = vec![
        ('t', CorrectLetter),
        ('a', CorrectLetter),
        ('r', CorrectLetter),
        ('e', CorrectLetter),
        ('s', CorrectLetter),
    ];
    assert_eq!(WordleGame::check_guess(guess, secret), expected_result)
}

#[test]
fn correct_placement_captures_letters() {
    let guess = "lllll";
    let secret = "hello";
    let expected_result = vec![
        ('l', IncorrectLetter),
        ('l', IncorrectLetter),
        ('l', CorrectPlacement),
        ('l', CorrectPlacement),
        ('l', IncorrectLetter),
    ];
    assert_eq!(WordleGame::check_guess(guess, secret), expected_result)
}

#[test]
fn correct_placement_and_correct_letter() {
    let guess = "llzll";
    let secret = "hello";
    let expected_result = vec![
        ('l', CorrectLetter),
        ('l', IncorrectLetter),
        ('z', IncorrectLetter),
        ('l', CorrectPlacement),
        ('l', IncorrectLetter),
    ];
    assert_eq!(WordleGame::check_guess(guess, secret), expected_result)
}

#[test]
fn misplaced_letters_around_exact_matches() {
    let expected_result = vec![
        ('t', CorrectLetter),
        ('r', CorrectPlacement),
        ('a', CorrectPlacement),
        ('c', CorrectLetter),
        ('e', CorrectPlacement),
    ];
    assert_eq!(WordleGame::check_guess("trace", "crate"), expected_result)
}

#[test]
fn exact_match_takes_its_share_before_earlier_misplaced_letters() {
    // "there" holds two e: the last e of the guess is in its place, so only
    // one of the two e before it can be credited, and that is the first
    let expected_result = vec![
        ('e', CorrectLetter),
        ('e', IncorrectLetter),
        ('r', CorrectLetter),
        ('i', IncorrectLetter),
        ('e', CorrectPlacement),
    ];
    assert_eq!(WordleGame::check_guess("eerie", "there"), expected_result)
}

#[test]
fn word_against_itself_is_correct_throughout() {
    for word in ["hello", "crate", "lllll", "a", "", "mamma"] {
        let result = WordleGame::check_guess(word, word);
        assert_eq!(result.len(), word.chars().count());
        for (i, c) in word.chars().enumerate() {
            assert_eq!(result[i], (c, CorrectPlacement));
        }
    }
}

#[test]
fn feedback_has_one_entry_for_each_letter_of_the_guess() {
    let pairs = [("would", "crate"), ("slate", "salad"), ("ab", "ba"), ("", ""), ("zzzzzzz", "abcdefg")];
    for (guess, secret) in pairs {
        let result = WordleGame::check_guess(guess, secret);
        assert_eq!(result.len(), guess.chars().count());
        for (i, c) in guess.chars().enumerate() {
            assert_eq!(result[i].0, c);
        }
    }
}

#[test]
fn scoring_twice_gives_the_same_feedback() {
    let first = WordleGame::check_guess("llzll", "hello");
    let second = WordleGame::check_guess("llzll", "hello");
    assert_eq!(first, second);
}

#[test]
fn letters_beyond_ascii_are_scored_as_letters() {
    let expected_result = vec![('\u{e9}', CorrectLetter), ('a', CorrectLetter), ('z', IncorrectLetter)];
    assert_eq!(WordleGame::check_guess("\u{e9}az", "a\u{e9}b"), expected_result)
}
