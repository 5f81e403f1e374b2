//! The filter: whether a word could be the secret, given the feedback that
//! earlier guesses received.

use crate::game::{
    lemma_offside_monotone, letter_result, offside, score, Feedback, GuessResult, LetterResult,
    WordleGameState,
};
use crate::util::{
    code, code_of, count_below, count_of, lemma_code_injective, lemma_count_below_prefix,
    lemma_count_codes, letter_codes, letters, unique_element_counts,
};
use std::collections::HashMap;
use vstd::prelude::*;

verus! {

/// The number of positions below `n` at which `feedback` credits the letter
/// `c`, as a `CorrectPlacement` or as a `CorrectLetter`.
pub open spec fn credited_below(feedback: Feedback, c: char, n: int) -> nat
    decreases n,
{
    if n <= 0 {
        0
    } else {
        credited_below(feedback, c, n - 1) + if feedback[n - 1].0 == c && feedback[n - 1].1
            != LetterResult::IncorrectLetter {
            1nat
        } else {
            0nat
        }
    }
}

/// How often the secret is known to hold `c` at least: the number of
/// positions at which `feedback` credits `c`.
pub open spec fn known_min(feedback: Feedback, c: char) -> nat {
    credited_below(feedback, c, feedback.len() as int)
}

/// `word` holds every letter at least as often as `feedback` credits it.
pub open spec fn meets_minimum(word: Seq<char>, feedback: Feedback) -> bool {
    forall|c: char| count_of(word, c) >= #[trigger] known_min(feedback, c)
}

/// Where `feedback` both credits a letter and marks an occurrence of it
/// `IncorrectLetter`, `word` holds the letter exactly as often as it is
/// credited. A letter that is nowhere credited is not bounded by this.
pub open spec fn meets_maximum(word: Seq<char>, feedback: Feedback) -> bool {
    forall|i: int|
        0 <= i < feedback.len() && (#[trigger] feedback[i]).1 == LetterResult::IncorrectLetter
            && known_min(feedback, feedback[i].0) > 0 ==> count_of(word, feedback[i].0)
            == known_min(feedback, feedback[i].0)
}

/// At each position that `word` and `feedback` share, `word` holds the
/// guessed letter if and only if the position is a `CorrectPlacement`.
pub open spec fn fits_positions(word: Seq<char>, feedback: Feedback) -> bool {
    forall|i: int|
        0 <= i < word.len() && i < feedback.len() ==> ((#[trigger] feedback[i]).1
            == LetterResult::CorrectPlacement <==> word[i] == feedback[i].0)
}

/// `word` is consistent with `feedback`: as the secret, it would not
/// contradict any part of it.
pub open spec fn satisfies(word: Seq<char>, feedback: Feedback) -> bool {
    &&& meets_minimum(word, feedback)
    &&& meets_maximum(word, feedback)
    &&& fits_positions(word, feedback)
}

/// `word` is consistent with every feedback of `history`.
pub open spec fn satisfies_all(word: Seq<char>, history: Seq<Feedback>) -> bool {
    forall|i: int| 0 <= i < history.len() ==> satisfies(word, #[trigger] history[i])
}

/// A letter that is credited at least once is credited at some position.
pub proof fn lemma_credited_positive(feedback: Feedback, c: char, n: int)
    requires
        0 <= n <= feedback.len(),
    ensures
        credited_below(feedback, c, n) > 0 <==> exists|i: int|
            0 <= i < n && (#[trigger] feedback[i]).0 == c && feedback[i].1
                != LetterResult::IncorrectLetter,
    decreases n,
{
    if n > 0 {
        lemma_credited_positive(feedback, c, n - 1);
        if credited_below(feedback, c, n) > 0 {
            if feedback[n - 1].0 == c && feedback[n - 1].1 != LetterResult::IncorrectLetter {
            } else {
                let i = choose|i: int|
                    0 <= i < n - 1 && (#[trigger] feedback[i]).0 == c && feedback[i].1
                        != LetterResult::IncorrectLetter;
                assert(0 <= i < n && feedback[i].0 == c);
            }
        }
    }
}

/// The positions at which two words both hold `c` can be counted from either
/// word: its occurrences less its offside occurrences.
pub proof fn lemma_exact_matches_symmetric(a: Seq<char>, b: Seq<char>, c: char, n: int)
    ensures
        count_below(a, c, n) - offside(a, b, c, n) == count_below(b, c, n) - offside(b, a, c, n),
    decreases n,
{
    if n > 0 {
        lemma_exact_matches_symmetric(a, b, c, n - 1);
    }
}

/// What scoring credits to `c` below position `n`: every exact match, and
/// of the misplaced occurrences as many as the secret holds unmatched.
pub proof fn lemma_credited_by_score(guess: Seq<char>, secret: Seq<char>, c: char, n: int)
    requires
        guess.len() == secret.len(),
        0 <= n <= guess.len(),
    ensures
        credited_below(score(guess, secret), c, n) == count_below(guess, c, n) - offside(
            guess,
            secret,
            c,
            n,
        ) + if offside(guess, secret, c, n) < offside(secret, guess, c, secret.len() as int) {
            offside(guess, secret, c, n)
        } else {
            offside(secret, guess, c, secret.len() as int)
        },
    decreases n,
{
    if n > 0 {
        lemma_credited_by_score(guess, secret, c, n - 1);
        assert(score(guess, secret)[n - 1] == (guess[n - 1], letter_result(guess, secret, n - 1)));
    }
}

/// The secret is consistent with the feedback that any guess of its length
/// receives against it. In particular a word is consistent with its own
/// feedback against itself.
pub proof fn lemma_secret_satisfies_feedback(guess: Seq<char>, secret: Seq<char>)
    requires
        guess.len() == secret.len(),
    ensures
        satisfies(secret, score(guess, secret)),
{
    let feedback = score(guess, secret);
    let n = secret.len() as int;
    assert forall|c: char| count_of(secret, c) >= #[trigger] known_min(feedback, c) by {
        lemma_credited_by_score(guess, secret, c, n);
        lemma_exact_matches_symmetric(guess, secret, c, n);
    }
    assert forall|i: int|
        0 <= i < feedback.len() && (#[trigger] feedback[i]).1 == LetterResult::IncorrectLetter
            && known_min(feedback, feedback[i].0) > 0 implies count_of(secret, feedback[i].0)
        == known_min(feedback, feedback[i].0) by {
        let c = guess[i];
        lemma_credited_by_score(guess, secret, c, n);
        lemma_exact_matches_symmetric(guess, secret, c, n);
        lemma_offside_monotone(guess, secret, c, i, n);
    }
    assert(fits_positions(secret, feedback));
}

/// A wrong guess is ruled out by its own feedback: a word of the secret's
/// length that is not the secret is not consistent with the feedback that
/// it receives.
pub proof fn lemma_wrong_guess_rules_itself_out(guess: Seq<char>, secret: Seq<char>)
    requires
        guess.len() == secret.len(),
        guess != secret,
    ensures
        !satisfies(guess, score(guess, secret)),
{
    let feedback = score(guess, secret);
    if forall|i: int| 0 <= i < guess.len() ==> guess[i] == secret[i] {
        assert(guess =~= secret);
    }
    let i = choose|i: int| 0 <= i < guess.len() && guess[i] != secret[i];
    assert(feedback[i] == (guess[i], letter_result(guess, secret, i)));
    assert(!fits_positions(guess, feedback));
}

/// `counts` holds for each letter of `word`, under its code point, how often
/// `word` holds it, and nothing for any other letter.
spec fn tallies_word(counts: Map<u32, usize>, word: Seq<char>) -> bool {
    forall|c: char|
        (#[trigger] counts.contains_key(code(c)) <==> count_of(word, c) > 0) && (
        counts.contains_key(code(c)) ==> counts[code(c)] == count_of(word, c))
}

/// `counts` holds for each letter that `feedback` credits, under its code
/// point, how often it credits it, and nothing for any other letter.
spec fn tallies_credits(counts: Map<u32, usize>, feedback: Feedback) -> bool {
    forall|c: char|
        (#[trigger] counts.contains_key(code(c)) <==> known_min(feedback, c) > 0) && (
        counts.contains_key(code(c)) ==> counts[code(c)] == known_min(feedback, c))
}

/// Whether `word` is consistent with the feedback `guess_result`: it holds
/// each letter as often as the feedback credits it at least, exactly as often
/// where the feedback also marks the letter incorrect, and it agrees with
/// the feedback position by position.
pub fn word_satisfies_contraint(word: &str, guess_result: &GuessResult) -> (res: bool)
    ensures
        res == satisfies(word@, guess_result@),
{
    broadcast use vstd::std_specs::hash::group_hash_axioms;

    let ghost w = word@;
    let ghost fb = guess_result@;
    let word_letters = letters(word);
    let word_codes = letter_codes(word_letters.as_slice());
    let word_letter_counts: HashMap<u32, usize> = unique_element_counts(word_codes.as_slice());
    proof {
        assert forall|c: char|
            (#[trigger] word_letter_counts@.contains_key(code(c)) <==> count_of(w, c) > 0) && (
            word_letter_counts@.contains_key(code(c)) ==> word_letter_counts@[code(c)] == count_of(
                w,
                c,
            )) by {
            lemma_count_codes(w, word_codes@, c, w.len() as int);
        }
        assert(tallies_word(word_letter_counts@, w));
    }

    // the letters that the feedback credits, once for each credit
    let n = guess_result.len();
    let mut correct_codes: Vec<u32> = Vec::new();
    let mut i: usize = 0;
    while i < n
        invariant
            guess_result@ == fb,
            n == fb.len(),
            i <= n,
            forall|c: char|
                count_of(correct_codes@, #[trigger] code(c)) == credited_below(fb, c, i as int),
        decreases n - i,
    {
        let (c0, res) = guess_result[i];
        let ghost before = correct_codes@;
        if res == LetterResult::CorrectLetter || res == LetterResult::CorrectPlacement {
            correct_codes.push(code_of(c0));
            proof {
                assert forall|c: char|
                    count_of(correct_codes@, #[trigger] code(c)) == credited_below(
                        fb,
                        c,
                        i + 1,
                    ) by {
                    lemma_count_below_prefix(
                        before,
                        correct_codes@,
                        code(c),
                        before.len() as int,
                    );
                    lemma_code_injective(c, c0);
                    assert(count_of(before, code(c)) == credited_below(fb, c, i as int));
                }
            }
        } else {
            proof {
                assert forall|c: char|
                    count_of(correct_codes@, #[trigger] code(c)) == credited_below(
                        fb,
                        c,
                        i + 1,
                    ) by {
                    assert(count_of(before, code(c)) == credited_below(fb, c, i as int));
                }
            }
        }
        i += 1;
    }
    let guess_correct_letter_counts: HashMap<u32, usize> = unique_element_counts(
        correct_codes.as_slice(),
    );
    proof {
        assert forall|c: char|
            (#[trigger] guess_correct_letter_counts@.contains_key(code(c)) <==> known_min(fb, c)
                > 0) && (guess_correct_letter_counts@.contains_key(code(c))
                ==> guess_correct_letter_counts@[code(c)] == known_min(fb, c)) by {
            assert(count_of(correct_codes@, code(c)) == credited_below(fb, c, n as int));
        }
        assert(tallies_credits(guess_correct_letter_counts@, fb));
    }

    // word should have at least all the correct letters
    let mut i: usize = 0;
    while i < n
        invariant
            word@ == w,
            guess_result@ == fb,
            n == fb.len(),
            i <= n,
            tallies_word(word_letter_counts@, w),
            tallies_credits(guess_correct_letter_counts@, fb),
            forall|j: int|
                0 <= j < i && (#[trigger] fb[j]).1 != LetterResult::IncorrectLetter ==> count_of(
                    w,
                    fb[j].0,
                ) >= known_min(fb, fb[j].0),
        decreases n - i,
    {
        let (c0, res) = guess_result[i];
        if res != LetterResult::IncorrectLetter {
            let key = code_of(c0);
            proof {
                lemma_credited_positive(fb, c0, n as int);
                assert(guess_correct_letter_counts@.contains_key(code(c0)));
                assert(word_letter_counts@.contains_key(code(c0)) <==> count_of(w, c0) > 0);
            }
            let count: usize = match guess_correct_letter_counts.get(&key) {
                Some(count) => *count,
                None => 0,
            };
            let enough = match word_letter_counts.get(&key) {
                None => false,
                Some(word_c_count) => *word_c_count >= count,
            };
            if !enough {
                proof {
                    assert(count_of(w, c0) < known_min(fb, c0));
                }
                return false;
            }
        }
        i += 1;
    }
    proof {
        assert forall|c: char| count_of(w, c) >= #[trigger] known_min(fb, c) by {
            if known_min(fb, c) > 0 {
                lemma_credited_positive(fb, c, n as int);
                let j = choose|j: int|
                    0 <= j < n && (#[trigger] fb[j]).0 == c && fb[j].1
                        != LetterResult::IncorrectLetter;
                assert(count_of(w, fb[j].0) >= known_min(fb, fb[j].0));
            }
        }
        assert(meets_minimum(w, fb));
    }

    // word should not have more than known max letters
    // (in the case we have a correct and incorrect for the same letter we know the max)
    let mut i: usize = 0;
    while i < n
        invariant
            word@ == w,
            guess_result@ == fb,
            n == fb.len(),
            i <= n,
            meets_minimum(w, fb),
            tallies_word(word_letter_counts@, w),
            tallies_credits(guess_correct_letter_counts@, fb),
            forall|j: int|
                0 <= j < i && (#[trigger] fb[j]).1 == LetterResult::IncorrectLetter && known_min(
                    fb,
                    fb[j].0,
                ) > 0 ==> count_of(w, fb[j].0) == known_min(fb, fb[j].0),
        decreases n - i,
    {
        let (c0, res) = guess_result[i];
        if res == LetterResult::IncorrectLetter {
            let key = code_of(c0);
            proof {
                assert(guess_correct_letter_counts@.contains_key(code(c0)) <==> known_min(fb, c0)
                    > 0);
                assert(word_letter_counts@.contains_key(code(c0)) <==> count_of(w, c0) > 0);
                assert(count_of(w, c0) >= known_min(fb, c0));
            }
            match guess_correct_letter_counts.get(&key) {
                None => {},
                Some(count) => {
                    let held: usize = match word_letter_counts.get(&key) {
                        Some(word_c_count) => *word_c_count,
                        None => 0,
                    };
                    if held != *count {
                        return false;
                    }
                },
            }
        }
        i += 1;
    }
    assert(meets_maximum(w, fb));

    // correct placements should match at the same position
    // otherwise should not match at the same position
    let shared = if word_letters.len() < n {
        word_letters.len()
    } else {
        n
    };
    let mut i: usize = 0;
    while i < shared
        invariant
            word@ == w,
            guess_result@ == fb,
            word_letters@ == w,
            meets_minimum(w, fb),
            meets_maximum(w, fb),
            n == fb.len(),
            shared <= n,
            shared <= w.len(),
            shared == n || shared == w.len(),
            i <= shared,
            forall|j: int|
                0 <= j < i ==> ((#[trigger] fb[j]).1 == LetterResult::CorrectPlacement <==> w[j]
                    == fb[j].0),
        decreases shared - i,
    {
        let word_c = word_letters[i];
        let (guess_c, letter_res) = guess_result[i];
        match letter_res {
            LetterResult::CorrectPlacement => {
                if word_c != guess_c {
                    return false;
                }
            },
            LetterResult::IncorrectLetter | LetterResult::CorrectLetter => {
                if word_c == guess_c {
                    return false;
                }
            },
        }
        i += 1;
    }
    true
}

/// Whether `word` is consistent with all the feedback given in `game_state`.
/// With no feedback yet, every word is.
pub fn word_matches(word: &str, game_state: &WordleGameState) -> (res: bool)
    ensures
        res == satisfies_all(word@, game_state.history()),
{
    let n = game_state.guesses.len();
    let mut i: usize = 0;
    while i < n
        invariant
            n == game_state.guesses@.len(),
            i <= n,
            forall|j: int| 0 <= j < i ==> satisfies(word@, #[trigger] game_state.history()[j]),
        decreases n - i,
    {
        if !word_satisfies_contraint(word, &game_state.guesses[i]) {
            assert(!satisfies(word@, game_state.history()[i as int]));
            return false;
        }
        i += 1;
    }
    true
}

} // verus!
