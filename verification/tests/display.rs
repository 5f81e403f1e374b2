use wordle_solver::display::guess_colors;
use wordle_solver::game::LetterResult::{CorrectLetter, CorrectPlacement, IncorrectLetter};
use wordle_solver::game::WordleGame;

#[test]
fn each_result_has_its_tile() {
    assert_eq!(guess_colors(&vec![('a', CorrectPlacement)]), "\u{1F7E9}");
    assert_eq!(guess_colors(&vec![('a', CorrectLetter)]), "\u{1F7E8}");
    assert_eq!(guess_colors(&vec![('a', IncorrectLetter)]), "\u{2B1B}\u{FE0F}");
}

#[test]
fn tiles_follow_the_order_of_the_letters() {
    let row = guess_colors(&WordleGame::check_guess("slate", "salad"));
    assert_eq!(row, "\u{1F7E9}\u{1F7E8}\u{1F7E8}\u{2B1B}\u{FE0F}\u{2B1B}\u{FE0F}");
}

#[test]
fn no_letters_give_an_empty_row() {
    assert_eq!(guess_colors(&vec![]), "");
}
