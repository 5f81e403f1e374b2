//! The game: how a guess is scored against the secret word, and the state
//! machine that accepts guesses until the secret is found or the budget is
//! spent.

use crate::pick::choose_from_slice;
use crate::util::{
    code, code_of, count_below, count_of, lemma_code_injective, lemma_count_below_monotone,
    lemma_count_below_positive, lemma_count_codes, letter_codes, letters, unique_element_counts,
};
use rand::rngs::StdRng;
use std::collections::HashMap;
use vstd::hash_set::StringHashSet;
use vstd::prelude::*;

verus! {

/// What the game tells the guesser about one letter of a guess.
#[derive(Debug, Clone, Copy, PartialEq, Eq, Structural)]
pub enum LetterResult {
    /// The secret holds this letter at this position.
    CorrectPlacement,
    /// The secret holds this letter elsewhere, and this occurrence is credited.
    CorrectLetter,
    /// The secret does not hold this letter, or all its occurrences are
    /// credited to other positions of the guess.
    IncorrectLetter,
}

/// The feedback on one guess: each letter of the guess with its result.
pub type GuessResult = Vec<(char, LetterResult)>;

/// The mathematical value of a `GuessResult`.
pub type Feedback = Seq<(char, LetterResult)>;

/// Where a game stands.
#[derive(Debug, Clone, Copy, PartialEq, Eq, Structural)]
pub enum GameCondition {
    /// Some guess matched the secret in every position.
    Win,
    /// The budget of guesses is spent and none of them matched the secret.
    Loss,
    /// Neither: the next guess is awaited.
    Playing,
}

/// A read-only look at a game: the feedback given so far, and where the game
/// stands.
#[derive(Debug)]
pub struct WordleGameState<'a> {
    pub guesses: &'a Vec<GuessResult>,
    pub condition: GameCondition,
}

/// The mathematical value of a list of `GuessResult`s.
pub open spec fn history_of(guesses: Seq<GuessResult>) -> Seq<Feedback> {
    guesses.map_values(|g: GuessResult| g@)
}

impl<'a> WordleGameState<'a> {
    /// The feedback given so far, oldest first.
    pub open spec fn history(&self) -> Seq<Feedback> {
        history_of(self.guesses@)
    }
}

/// The number of positions below `n` at which `a` holds `c` and `b` does not.
///
/// With the secret for `a` and the guess for `b` this counts the occurrences
/// of `c` in the secret that the guess has not matched exactly; with the
/// guess for `a` and the secret for `b`, the misplaced occurrences of `c` in
/// the guess.
pub open spec fn offside(a: Seq<char>, b: Seq<char>, c: char, n: int) -> nat
    decreases n,
{
    if n <= 0 {
        0
    } else {
        offside(a, b, c, n - 1) + if a[n - 1] == c && b[n - 1] != c {
            1nat
        } else {
            0nat
        }
    }
}

/// The result for position `i` of `guess` against `secret`.
///
/// A letter in its place is a `CorrectPlacement`. A misplaced letter is a
/// `CorrectLetter` as long as fewer misplaced occurrences of it precede it in
/// the guess than the secret holds occurrences that the guess has not matched
/// exactly; so the leftmost misplaced occurrences are credited first, and
/// only after every exact match has taken its share.
pub open spec fn letter_result(guess: Seq<char>, secret: Seq<char>, i: int) -> LetterResult {
    let c = guess[i];
    if secret[i] == c {
        LetterResult::CorrectPlacement
    } else if offside(guess, secret, c, i) < offside(secret, guess, c, secret.len() as int) {
        LetterResult::CorrectLetter
    } else {
        LetterResult::IncorrectLetter
    }
}

/// The feedback for `guess` against `secret`, two words of one length.
pub open spec fn score(guess: Seq<char>, secret: Seq<char>) -> Feedback {
    Seq::new(guess.len(), |i: int| (guess[i], letter_result(guess, secret, i)))
}

/// No more occurrences are offside than there are occurrences.
pub proof fn lemma_offside_bound(a: Seq<char>, b: Seq<char>, c: char, n: int)
    ensures
        offside(a, b, c, n) <= count_below(a, c, n),
    decreases n,
{
    if n > 0 {
        lemma_offside_bound(a, b, c, n - 1);
    }
}

/// Offside occurrences only accumulate along the word.
pub proof fn lemma_offside_monotone(a: Seq<char>, b: Seq<char>, c: char, m: int, n: int)
    requires
        m <= n,
    ensures
        offside(a, b, c, m) <= offside(a, b, c, n),
    decreases n - m,
{
    if m < n {
        lemma_offside_monotone(a, b, c, m, n - 1);
    }
}

/// What the pool holds for `c` when the first pass has seen `i` positions:
/// the occurrences of `c` in the secret that it has passed without an exact
/// match, and those still ahead of it.
spec fn left_after_exact(guess: Seq<char>, secret: Seq<char>, c: char, i: int) -> int {
    offside(secret, guess, c, i) + count_of(secret, c) - count_below(secret, c, i)
}

/// What the pool holds for `c` when the second pass has seen `i` positions:
/// the unmatched occurrences of `c` in the secret, less one for each
/// misplaced `c` of the guess so far, and never less than none.
spec fn left_after_credit(guess: Seq<char>, secret: Seq<char>, c: char, i: int) -> int {
    let unmatched = offside(secret, guess, c, secret.len() as int);
    let misplaced = offside(guess, secret, c, i);
    if misplaced < unmatched {
        unmatched - misplaced
    } else {
        0
    }
}

/// The pool has an entry for exactly the letters of the secret.
spec fn pool_covers(pool: Map<u32, usize>, secret: Seq<char>) -> bool {
    forall|c: char| #[trigger] pool.contains_key(code(c)) <==> count_of(secret, c) > 0
}

/// The result that the first pass gives position `j`.
spec fn provisional(guess: Seq<char>, secret: Seq<char>, j: int) -> (char, LetterResult) {
    (
        guess[j],
        if guess[j] == secret[j] {
            LetterResult::CorrectPlacement
        } else {
            LetterResult::IncorrectLetter
        },
    )
}

/// Every letter of the feedback is a `CorrectPlacement`.
pub open spec fn is_winning(feedback: Feedback) -> bool {
    forall|i: int| 0 <= i < feedback.len() ==> (#[trigger] feedback[i]).1
        == LetterResult::CorrectPlacement
}

/// Some guess of the history matched the secret in every position.
pub open spec fn has_won(history: Seq<Feedback>) -> bool {
    exists|i: int| 0 <= i < history.len() && is_winning(#[trigger] history[i])
}

/// Where a game with this history and this budget of guesses stands.
pub open spec fn outcome(history: Seq<Feedback>, max_guesses: nat) -> GameCondition {
    if has_won(history) {
        GameCondition::Win
    } else if history.len() >= max_guesses {
        GameCondition::Loss
    } else {
        GameCondition::Playing
    }
}

/// Why a guess was not taken.
#[derive(Debug, Clone, Copy, PartialEq, Eq, Structural)]
pub enum GuessError {
    /// The word is not in the dictionary.
    UnknownWord,
    /// The word is in the dictionary, but the budget of guesses is spent.
    GuessBudgetExhausted,
}

impl GuessError {
    /// The sentence that tells a player of this error.
    pub fn message(&self) -> (text: &'static str)
        ensures
            text@ == match *self {
                GuessError::UnknownWord => "Invalid word"@,
                GuessError::GuessBudgetExhausted => "No more guesses available"@,
            },
    {
        match self {
            GuessError::UnknownWord => "Invalid word",
            GuessError::GuessBudgetExhausted => "No more guesses available",
        }
    }
}

/// The words of a dictionary, as a set.
pub open spec fn words_of(dictionary: Seq<String>) -> Set<Seq<char>> {
    Set::new(
        |w: Seq<char>| exists|i: int| 0 <= i < dictionary.len() && (#[trigger] dictionary[i])@ == w,
    )
}

/// The words of a list with one more word are those of the list and that
/// word.
pub proof fn lemma_words_of_push(words: Seq<String>, word: String)
    ensures
        words_of(words.push(word)) == words_of(words).insert(word@),
{
    let longer = words.push(word);
    assert forall|w: Seq<char>| words_of(longer).contains(w) <==> words_of(words).insert(
        word@,
    ).contains(w) by {
        if words_of(longer).contains(w) {
            let j = choose|j: int| 0 <= j < longer.len() && (#[trigger] longer[j])@ == w;
            if j < words.len() {
                assert(words[j]@ == w);
            }
        }
        if words_of(words).contains(w) {
            let j = choose|j: int| 0 <= j < words.len() && (#[trigger] words[j])@ == w;
            assert(longer[j]@ == w);
        }
        if w == word@ {
            assert(longer[words.len() as int]@ == w);
        }
    }
    assert(words_of(longer) =~= words_of(words).insert(word@));
}

/// Every word of the dictionary has `len` letters.
pub open spec fn all_of_length(dictionary: Seq<String>, len: nat) -> bool {
    forall|i: int| 0 <= i < dictionary.len() ==> (#[trigger] dictionary[i])@.len() == len
}

/// `feedback` is what some word of `dictionary` scores against `secret`.
pub open spec fn is_feedback_of(
    feedback: Feedback,
    dictionary: Set<Seq<char>>,
    secret: Seq<char>,
) -> bool {
    exists|g: Seq<char>| #[trigger] dictionary.contains(g) && feedback == score(g, secret)
}

/// One game: the dictionary of accepted words, the secret word among them,
/// the feedback given so far and the budget of guesses.
pub struct WordleGame {
    dictionary: StringHashSet,
    guesses: Vec<GuessResult>,
    secret_word: String,
    max_guesses: usize,
}

/// Whether every letter of `guess` is in its place.
fn is_all_correct(guess: &GuessResult) -> (res: bool)
    ensures
        res == is_winning(guess@),
{
    let mut i: usize = 0;
    while i < guess.len()
        invariant
            i <= guess.len(),
            forall|j: int| 0 <= j < i ==> (#[trigger] guess@[j]).1
                == LetterResult::CorrectPlacement,
        decreases guess.len() - i,
    {
        if guess[i].1 != LetterResult::CorrectPlacement {
            return false;
        }
        i += 1;
    }
    true
}

impl WordleGame {
    /// The words that the game accepts as guesses.
    pub closed spec fn dictionary(&self) -> Set<Seq<char>> {
        self.dictionary@
    }

    /// The word to be found.
    pub closed spec fn secret(&self) -> Seq<char> {
        self.secret_word@
    }

    /// The feedback given so far, oldest first.
    pub closed spec fn history(&self) -> Seq<Feedback> {
        history_of(self.guesses@)
    }

    /// The number of guesses that the game takes at most.
    pub closed spec fn max_guesses(&self) -> nat {
        self.max_guesses as nat
    }

    /// Where the game stands.
    pub open spec fn condition(&self) -> GameCondition {
        outcome(self.history(), self.max_guesses())
    }

    /// What the game answers to the guess `guess`: it refuses a word that is
    /// not in the dictionary, then a word that comes when the budget is
    /// spent, and takes any other.
    pub open spec fn verdict(&self, guess: Seq<char>) -> Result<(), GuessError> {
        if !self.dictionary().contains(guess) {
            Err(GuessError::UnknownWord)
        } else if self.history().len() >= self.max_guesses() {
            Err(GuessError::GuessBudgetExhausted)
        } else {
            Ok(())
        }
    }

    /// The game is sound: the secret is a word of the dictionary, whose words
    /// all have its length; the budget is not overdrawn; and each feedback of
    /// the history is the score of a dictionary word against the secret.
    pub open spec fn wf(&self) -> bool {
        &&& self.dictionary().contains(self.secret())
        &&& forall|w: Seq<char>| #[trigger]
            self.dictionary().contains(w) ==> w.len() == self.secret().len()
        &&& self.history().len() <= self.max_guesses()
        &&& forall|i: int|
            0 <= i < self.history().len() ==> is_feedback_of(
                #[trigger] self.history()[i],
                self.dictionary(),
                self.secret(),
            )
    }

    /// A new game over `dictionary` with the secret `secret_word`, no guess
    /// made yet and a budget of six.
    pub fn new(dictionary: &[String], secret_word: &str) -> (game: Self)
        requires
            words_of(dictionary@).contains(secret_word@),
            all_of_length(dictionary@, secret_word@.len()),
        ensures
            game.wf(),
            game.dictionary() == words_of(dictionary@),
            game.secret() == secret_word@,
            game.history() == Seq::<Feedback>::empty(),
            game.max_guesses() == 6,
            game.condition() == GameCondition::Playing,
    {
        let mut dictionary_set = StringHashSet::new();
        let mut i: usize = 0;
        while i < dictionary.len()
            invariant
                i <= dictionary.len(),
                dictionary_set@ == words_of(dictionary@.take(i as int)),
            decreases dictionary.len() - i,
        {
            dictionary_set.insert(dictionary[i].clone());
            proof {
                lemma_words_of_push(dictionary@.take(i as int), dictionary@[i as int]);
                assert(dictionary@.take(i + 1) == dictionary@.take(i as int).push(
                    dictionary@[i as int],
                ));
            }
            i += 1;
        }
        assert(dictionary@.take(dictionary@.len() as int) =~= dictionary@);
        let secret_word = secret_word.to_owned();
        let game = Self {
            dictionary: dictionary_set,
            guesses: Vec::new(),
            secret_word,
            max_guesses: 6,
        };
        proof {
            assert(game.history() =~= Seq::<Feedback>::empty());
            assert forall|w: Seq<char>| #[trigger] game.dictionary().contains(w) implies w.len()
                == game.secret().len() by {
                let j = choose|j: int|
                    0 <= j < dictionary@.len() && (#[trigger] dictionary@[j])@ == w;
            }
        }
        game
    }

    /// A new game over `dictionary` whose secret is a word of it that `rng`
    /// picks.
    pub fn new_with_random_secret_word(dictionary: &[String], rng: &mut StdRng) -> (game: Self)
        requires
            dictionary@.len() > 0,
            all_of_length(dictionary@, dictionary@[0]@.len()),
        ensures
            game.wf(),
            game.dictionary() == words_of(dictionary@),
            game.history() == Seq::<Feedback>::empty(),
            game.max_guesses() == 6,
            game.condition() == GameCondition::Playing,
    {
        let secret_word = choose_from_slice(dictionary, rng).unwrap().clone();
        Self::new(dictionary, secret_word.as_str())
    }

    /// Takes the guess `guess`, if it is a word of the dictionary and the
    /// budget is not spent: scores it and appends the feedback to the
    /// history. A guess that is refused changes nothing.
    pub fn make_guess(&mut self, guess: &str) -> (res: Result<(), GuessError>)
        requires
            old(self).wf(),
        ensures
            final(self).wf(),
            final(self).dictionary() == old(self).dictionary(),
            final(self).secret() == old(self).secret(),
            final(self).max_guesses() == old(self).max_guesses(),
            res == old(self).verdict(guess@),
            final(self).history() == match res {
                Ok(_) => old(self).history().push(score(guess@, old(self).secret())),
                Err(_) => old(self).history(),
            },
    {
        if !self.dictionary.contains(guess) {
            return Err(GuessError::UnknownWord);
        }
        if self.guesses.len() >= self.max_guesses {
            return Err(GuessError::GuessBudgetExhausted);
        }
        let guess_result = Self::check_guess(guess, self.secret_word.as_str());
        self.guesses.push(guess_result);
        proof {
            assert(self.history() =~= old(self).history().push(score(guess@, old(self).secret())));
            assert forall|i: int| 0 <= i < self.history().len() implies is_feedback_of(
                #[trigger] self.history()[i],
                self.dictionary(),
                self.secret(),
            ) by {
                if i < old(self).history().len() {
                    assert(is_feedback_of(
                        old(self).history()[i],
                        old(self).dictionary(),
                        old(self).secret(),
                    ));
                } else {
                    assert(self.dictionary().contains(guess@) && self.history()[i] == score(
                        guess@,
                        self.secret(),
                    ));
                }
            }
        }
        Ok(())
    }

    /// A look at the game: its history and where it stands.
    pub fn game_state(&self) -> (state: WordleGameState<'_>)
        ensures
            state.history() == self.history(),
            state.condition == self.condition(),
    {
        WordleGameState { guesses: &self.guesses, condition: self.game_condition() }
    }

    /// Where the game stands: won as soon as one guess matched the secret,
    /// lost when the budget is spent without that, and going on otherwise.
    pub fn game_condition(&self) -> (condition: GameCondition)
        ensures
            condition == self.condition(),
    {
        let mut has_won = false;
        let mut i: usize = 0;
        while i < self.guesses.len()
            invariant
                i <= self.guesses.len(),
                has_won <==> exists|j: int|
                    0 <= j < i && is_winning(#[trigger] self.history()[j]),
            decreases self.guesses.len() - i,
        {
            if is_all_correct(&self.guesses[i]) {
                assert(is_winning(self.history()[i as int]));
                has_won = true;
            }
            i += 1;
        }
        if has_won {
            GameCondition::Win
        } else if self.guesses.len() >= self.max_guesses {
            GameCondition::Loss
        } else {
            GameCondition::Playing
        }
    }

    /// Scores `guess` against `secret_word`: one result for each letter of the
    /// guess. The feedback depends on the two words alone.
    pub fn check_guess(guess: &str, secret_word: &str) -> (guess_result: GuessResult)
        requires
            guess@.len() == secret_word@.len(),
        ensures
            guess_result@ == score(guess@, secret_word@),
            guess_result@.len() == guess@.len(),
    {
        broadcast use vstd::std_specs::hash::group_hash_axioms;

        let guess_letters = letters(guess);
        let secret_letters = letters(secret_word);
        let secret_codes = letter_codes(secret_letters.as_slice());
        let n = guess_letters.len();
        let ghost g = guess@;
        let ghost s = secret_word@;
        let mut letter_counts: HashMap<u32, usize> = unique_element_counts(secret_codes.as_slice());
        proof {
            assert forall|c: char| #[trigger]
                letter_counts@.contains_key(code(c)) <==> count_of(s, c) > 0 by {
                lemma_count_codes(s, secret_codes@, c, n as int);
            }
            assert forall|c: char| #[trigger]
                letter_counts@.contains_key(code(c)) implies letter_counts@[code(c)]
                == left_after_exact(g, s, c, 0) by {
                lemma_count_codes(s, secret_codes@, c, n as int);
            }
        }
        let mut guess_result: Vec<(char, LetterResult)> = Vec::with_capacity(n);
        let mut i: usize = 0;
        while i < n
            invariant
                guess_letters@ == g,
                secret_letters@ == s,
                n == g.len(),
                n == s.len(),
                i <= n,
                guess_result@.len() == i,
                forall|j: int| 0 <= j < i ==> guess_result@[j] == provisional(g, s, j),
                pool_covers(letter_counts@, s),
                forall|c: char| #[trigger]
                    letter_counts@.contains_key(code(c)) ==> letter_counts@[code(c)]
                        == left_after_exact(g, s, c, i as int),
            decreases n - i,
        {
            let guess_c = guess_letters[i];
            let selected_c = secret_letters[i];
            let ghost before = letter_counts@;
            if guess_c == selected_c {
                guess_result.push((guess_c, LetterResult::CorrectPlacement));
                let key = code_of(selected_c);
                proof {
                    lemma_count_below_positive(s, selected_c, n as int);
                    lemma_count_below_monotone(s, selected_c, i + 1, n as int);
                    assert(before.contains_key(code(selected_c)));
                }
                let left: usize = match letter_counts.get(&key) {
                    Some(count) => *count,
                    None => 0,
                };
                letter_counts.insert(key, left - 1);
            } else {
                guess_result.push((guess_c, LetterResult::IncorrectLetter));
            }
            proof {
                assert forall|c: char| #[trigger]
                    letter_counts@.contains_key(code(c)) <==> count_of(s, c) > 0 by {
                    assert(before.contains_key(code(c)) <==> count_of(s, c) > 0);
                }
                assert forall|c: char| #[trigger]
                    letter_counts@.contains_key(code(c)) implies letter_counts@[code(c)]
                    == left_after_exact(g, s, c, i + 1) by {
                    assert(before.contains_key(code(c)));
                    assert(before[code(c)] == left_after_exact(g, s, c, i as int));
                    lemma_code_injective(c, selected_c);
                }
            }
            i += 1;
        }

        let mut i: usize = 0;
        while i < n
            invariant
                guess_letters@ == g,
                secret_letters@ == s,
                n == g.len(),
                n == s.len(),
                i <= n,
                guess_result@.len() == n,
                forall|j: int| 0 <= j < i ==> guess_result@[j] == score(g, s)[j],
                forall|j: int| i <= j < n ==> guess_result@[j] == provisional(g, s, j),
                pool_covers(letter_counts@, s),
                forall|c: char| #[trigger]
                    letter_counts@.contains_key(code(c)) ==> letter_counts@[code(c)]
                        == left_after_credit(g, s, c, i as int),
            decreases n - i,
        {
            let guess_c = guess_letters[i];
            let key = code_of(guess_c);
            let ghost before = letter_counts@;
            proof {
                lemma_offside_bound(s, g, guess_c, n as int);
                assert(before.contains_key(code(guess_c)) <==> count_of(s, guess_c) > 0);
                if g[i as int] == s[i as int] {
                    lemma_count_below_positive(s, guess_c, n as int);
                }
            }
            match letter_counts.get(&key) {
                Some(count) => {
                    let count: usize = *count;
                    if count > 0 && guess_result[i].1 != LetterResult::CorrectPlacement {
                        guess_result.set(i, (guess_c, LetterResult::CorrectLetter));
                        letter_counts.insert(key, count - 1);
                    }
                },
                None => {},
            }
            proof {
                assert(guess_result@[i as int] == score(g, s)[i as int]);
                assert forall|c: char| #[trigger]
                    letter_counts@.contains_key(code(c)) <==> count_of(s, c) > 0 by {
                    assert(before.contains_key(code(c)) <==> count_of(s, c) > 0);
                }
                assert forall|c: char| #[trigger]
                    letter_counts@.contains_key(code(c)) implies letter_counts@[code(c)]
                    == left_after_credit(g, s, c, i + 1) by {
                    assert(before.contains_key(code(c)));
                    assert(before[code(c)] == left_after_credit(g, s, c, i as int));
                    lemma_code_injective(c, guess_c);
                }
            }
            i += 1;
        }
        guess_result
    }
}

/// A feedback has one entry for each letter of the guess, and each entry
/// repeats the letter that it is about.
pub proof fn lemma_score_shape(guess: Seq<char>, secret: Seq<char>)
    ensures
        score(guess, secret).len() == guess.len(),
        forall|i: int| 0 <= i < guess.len() ==> (#[trigger] score(guess, secret)[i]).0 == guess[i],
{
}

/// A word scored against itself is a `CorrectPlacement` in every position.
pub proof fn lemma_score_of_secret(word: Seq<char>)
    ensures
        forall|i: int|
            0 <= i < word.len() ==> #[trigger] score(word, word)[i] == (
                word[i],
                LetterResult::CorrectPlacement,
            ),
        is_winning(score(word, word)),
{
}

/// Credit goes to the left first: of two misplaced occurrences of one letter
/// in a guess, the left one is a `CorrectLetter` wherever the right one is.
pub proof fn lemma_credit_goes_left_first(guess: Seq<char>, secret: Seq<char>, i: int, j: int)
    requires
        0 <= i <= j < guess.len(),
        guess[i] == guess[j],
        letter_result(guess, secret, i) != LetterResult::CorrectPlacement,
        letter_result(guess, secret, j) == LetterResult::CorrectLetter,
    ensures
        letter_result(guess, secret, i) == LetterResult::CorrectLetter,
{
    lemma_offside_monotone(guess, secret, guess[i], i, j);
}

/// Among the words of the secret's length, the secret alone receives a
/// feedback that wins.
pub proof fn lemma_winning_is_secret(guess: Seq<char>, secret: Seq<char>)
    requires
        guess.len() == secret.len(),
    ensures
        is_winning(score(guess, secret)) <==> guess == secret,
{
    let feedback = score(guess, secret);
    if is_winning(feedback) {
        assert forall|i: int| 0 <= i < guess.len() implies guess[i] == secret[i] by {
            assert(feedback[i].1 == LetterResult::CorrectPlacement);
        }
        assert(guess =~= secret);
    }
    if guess == secret {
        lemma_score_of_secret(secret);
    }
}

/// The game is won: at least one feedback of the history is a
/// `CorrectPlacement` throughout.
pub open spec fn is_win(history: Seq<Feedback>) -> bool {
    has_won(history)
}

/// The game is lost: it is not won, and the history holds as many feedbacks
/// as the budget allows, or more.
pub open spec fn is_loss(history: Seq<Feedback>, max_guesses: nat) -> bool {
    !is_win(history) && history.len() >= max_guesses
}

/// The game goes on: it is neither won nor lost.
pub open spec fn is_playing(history: Seq<Feedback>, max_guesses: nat) -> bool {
    !is_win(history) && !is_loss(history, max_guesses)
}

/// Of won, lost and going on, exactly one holds of any history and budget,
/// and `outcome` names the one that does.
pub proof fn lemma_outcome_exclusive(history: Seq<Feedback>, max_guesses: nat)
    ensures
        is_win(history) <==> outcome(history, max_guesses) == GameCondition::Win,
        is_loss(history, max_guesses) <==> outcome(history, max_guesses) == GameCondition::Loss,
        is_playing(history, max_guesses) <==> outcome(history, max_guesses)
            == GameCondition::Playing,
        (is_win(history) && !is_loss(history, max_guesses) && !is_playing(history, max_guesses))
            || (!is_win(history) && is_loss(history, max_guesses) && !is_playing(
            history,
            max_guesses,
        )) || (!is_win(history) && !is_loss(history, max_guesses) && is_playing(
            history,
            max_guesses,
        )),
{
}

/// When the budget is spent without a win, the game is lost, and it refuses
/// every further word of its dictionary for want of budget.
pub proof fn lemma_budget_enforced(game: WordleGame, guess: Seq<char>)
    requires
        game.history().len() >= game.max_guesses(),
        !has_won(game.history()),
        game.dictionary().contains(guess),
    ensures
        game.condition() == GameCondition::Loss,
        game.verdict(guess) == Err::<(), GuessError>(GuessError::GuessBudgetExhausted),
{
}

/// No guess leads out of a game that is over: a lost game takes no guess,
/// and a won game stays won whatever feedback is added to its history.
pub proof fn lemma_over_stays_over(game: WordleGame, guess: Seq<char>, feedback: Feedback)
    ensures
        game.condition() == GameCondition::Loss ==> game.verdict(guess) is Err,
        game.condition() == GameCondition::Win ==> outcome(
            game.history().push(feedback),
            game.max_guesses(),
        ) == GameCondition::Win,
{
    if game.condition() == GameCondition::Win {
        let i = choose|i: int|
            0 <= i < game.history().len() && is_winning(#[trigger] game.history()[i]);
        assert(game.history().push(feedback)[i] == game.history()[i]);
    }
}

/// A game starts going on: with no guess made and a budget of at least one,
/// it is neither won nor lost.
pub proof fn lemma_starts_playing(max_guesses: nat)
    requires
        max_guesses > 0,
    ensures
        outcome(Seq::<Feedback>::empty(), max_guesses) == GameCondition::Playing,
{
}

} // verus!
