//! The strategy that drops the words that the latest feedback rules out, and
//! proposes any of the rest.

use crate::constraint::{satisfies, word_satisfies_contraint};
use crate::game::{lemma_words_of_push, words_of, Feedback, GuessResult, WordleGameState};
use crate::pick::choose_from_iter;
use crate::solver_strategy::SolverStrategy;
use rand::rngs::StdRng;
use vstd::hash_set::StringHashSet;
use vstd::prelude::*;
use vstd::std_specs::iter::IteratorSpec;

verus! {

/// No word occurs twice in `words`.
spec fn distinct_words(words: Seq<String>) -> bool {
    forall|i: int, j: int|
        0 <= i < j < words.len() ==> (#[trigger] words[i])@ != (#[trigger] words[j])@
}

/// A set of words, held as a list in which no word occurs twice.
struct WordPool {
    words: Vec<String>,
}

impl View for WordPool {
    type V = Set<Seq<char>>;

    closed spec fn view(&self) -> Set<Seq<char>> {
        words_of(self.words@)
    }
}

impl WordPool {
    #[verifier::type_invariant]
    spec fn holds_each_word_once(self) -> bool {
        distinct_words(self.words@)
    }

    /// The pool of the words of `listed`. A word that is listed more than
    /// once is held once.
    fn new(listed: Vec<String>) -> (pool: Self)
        ensures
            pool@ == words_of(listed@),
    {
        let ghost all = listed@;
        let mut seen = StringHashSet::new();
        let mut words: Vec<String> = Vec::new();
        for word in it: listed
            invariant
                it.seq() == all,
                distinct_words(words@),
                seen@ == words_of(words@),
                words_of(words@) == words_of(all.take(it.index() as int)),
        {
            let ghost before = words@;
            let ghost i = it.index() as int;
            proof {
                lemma_words_of_push(all.take(i), word);
                assert(all.take(i + 1) == all.take(i).push(word));
            }
            if !seen.contains(word.as_str()) {
                seen.insert(word.clone());
                words.push(word);
                proof {
                    lemma_words_of_push(before, word);
                    lemma_push_keeps_distinct(before, word);
                }
            } else {
                assert(words_of(all.take(i)).insert(word@) =~= words_of(all.take(i)));
            }
        }
        proof {
            assert(all.take(all.len() as int) == all);
        }
        Self { words }
    }

    /// Keeps the words that are consistent with `feedback` and drops the
    /// others.
    fn retain_satisfying(&mut self, feedback: &GuessResult)
        ensures
            final(self)@ == old(self)@.filter(|word: Seq<char>| satisfies(word, feedback@)),
    {
        proof {
            use_type_invariant(&*self);
        }
        let mut held: Vec<String> = Vec::new();
        std::mem::swap(&mut self.words, &mut held);
        let ghost pool = held@;
        let mut kept: Vec<String> = Vec::new();
        for word in it: held
            invariant
                it.seq() == pool,
                distinct_words(pool),
                self.words@.len() == 0,
                distinct_words(kept@),
                words_of(kept@) == words_of(pool.take(it.index() as int)).filter(
                    |word: Seq<char>| satisfies(word, feedback@),
                ),
        {
            let ghost before = kept@;
            let ghost i = it.index() as int;
            proof {
                lemma_words_of_push(pool.take(i), word);
                assert(pool.take(i + 1) == pool.take(i).push(word));
            }
            if word_satisfies_contraint(word.as_str(), feedback) {
                kept.push(word);
                proof {
                    lemma_words_of_push(before, word);
                    if words_of(before).contains(word@) {
                        assert(words_of(pool.take(i)).contains(word@));
                        let j = choose|j: int|
                            0 <= j < pool.take(i).len() && (#[trigger] pool.take(i)[j])@ == word@;
                        assert(pool[j]@ == pool[i]@);
                    }
                    lemma_push_keeps_distinct(before, word);
                }
            }
            assert(words_of(kept@) =~= words_of(pool.take(i + 1)).filter(
                |word: Seq<char>| satisfies(word, feedback@),
            ));
        }
        proof {
            assert(pool.take(pool.len() as int) == pool);
        }
        self.words = kept;
    }

    /// The words of the pool, each once.
    fn as_slice(&self) -> (words: &[String])
        ensures
            words_of(words@) == self@,
    {
        self.words.as_slice()
    }
}

/// Holds the words that may still be the secret and proposes one of them that
/// its generator picks.
pub struct NarrowingRandomWordleSolver {
    dictionary: WordPool,
    rng: StdRng,
}

/// The words of `pool` that are consistent with the latest feedback of
/// `history`; all of them while there is none.
pub open spec fn narrowed_by_last(pool: Set<Seq<char>>, history: Seq<Feedback>) -> Set<Seq<char>> {
    if history.len() == 0 {
        pool
    } else {
        pool.filter(|word: Seq<char>| satisfies(word, history.last()))
    }
}

impl NarrowingRandomWordleSolver {
    /// A solver whose candidates are the words of `dictionary`, picked by
    /// `rng`.
    pub fn new(dictionary: Vec<String>, rng: StdRng) -> (solver: Self)
        ensures
            solver.candidates() == words_of(dictionary@),
    {
        Self { dictionary: WordPool::new(dictionary), rng }
    }

    /// Drops the candidates that the latest feedback of `game_state` rules
    /// out. With no feedback yet, all stay.
    pub fn narrow(&mut self, game_state: &WordleGameState)
        ensures
            final(self).candidates() == narrowed_by_last(
                old(self).candidates(),
                game_state.history(),
            ),
            final(self).candidates().subset_of(old(self).candidates()),
    {
        if !game_state.guesses.is_empty() {
            let last = &game_state.guesses[game_state.guesses.len() - 1];
            assert(last@ == game_state.history().last());
            self.dictionary.retain_satisfying(last);
        }
    }
}

/// Narrowing never adds a word: what is left after a look at any history
/// is part of the pool, and of a finite pool no more words are left than it
/// held.
pub proof fn lemma_narrowing_never_grows(pool: Set<Seq<char>>, history: Seq<Feedback>)
    ensures
        narrowed_by_last(pool, history).subset_of(pool),
        pool.finite() ==> narrowed_by_last(pool, history).finite() && narrowed_by_last(
            pool,
            history,
        ).len() <= pool.len(),
{
    if pool.finite() {
        vstd::set_lib::lemma_len_subset(narrowed_by_last(pool, history), pool);
    }
}

/// A list in which no word occurs twice stays so when a word that is not in
/// it is added.
proof fn lemma_push_keeps_distinct(words: Seq<String>, word: String)
    requires
        distinct_words(words),
        !words_of(words).contains(word@),
    ensures
        distinct_words(words.push(word)),
{
    let longer = words.push(word);
    assert forall|a: int, b: int| 0 <= a < b < longer.len() implies (#[trigger] longer[a])@ != (
    #[trigger] longer[b])@ by {
        if b == words.len() {
            if words[a]@ == word@ {
                assert(words_of(words).contains(word@));
            }
        } else {
            assert(words[a]@ != words[b]@);
        }
    }
}

impl SolverStrategy for NarrowingRandomWordleSolver {
    closed spec fn candidates(&self) -> Set<Seq<char>> {
        self.dictionary@
    }

    open spec fn narrowed(&self, history: Seq<Feedback>) -> Set<Seq<char>> {
        narrowed_by_last(self.candidates(), history)
    }

    open spec fn can_go_on(&self, secret: Seq<char>) -> bool {
        self.candidates().contains(secret)
    }

    proof fn lemma_can_go_on(&self, secret: Seq<char>, history: Seq<Feedback>) {
        assert(self.narrowed(history).contains(secret));
    }

    fn next_guess(&mut self, game_state: &WordleGameState) -> (guess: String) {
        self.narrow(game_state);
        proof {
            let word = choose|word: Seq<char>|
                old(self).narrowed(game_state.history()).contains(word);
            assert(self.dictionary@.contains(word));
        }
        choose_from_iter(self.dictionary.as_slice(), &mut self.rng).unwrap().clone()
    }
}

} // verus!
