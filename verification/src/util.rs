//! Counting the occurrences of elements in a sequence.

use std::collections::HashMap;
use std::hash::Hash;
use vstd::prelude::*;
use vstd::std_specs::hash::obeys_key_model;
use vstd::std_specs::iter::IteratorSpec;

verus! {

/// The number of positions below `n` at which `s` holds `x`.
pub open spec fn count_below<T>(s: Seq<T>, x: T, n: int) -> nat
    decreases n,
{
    if n <= 0 {
        0
    } else {
        count_below(s, x, n - 1) + if s[n - 1] == x {
            1nat
        } else {
            0nat
        }
    }
}

/// The number of times `x` occurs in `s`.
pub open spec fn count_of<T>(s: Seq<T>, x: T) -> nat {
    count_below(s, x, s.len() as int)
}

/// A count never exceeds the length of the prefix it was taken over.
pub proof fn lemma_count_below_bound<T>(s: Seq<T>, x: T, n: int)
    requires
        0 <= n,
    ensures
        count_below(s, x, n) <= n,
    decreases n,
{
    if n > 0 {
        lemma_count_below_bound(s, x, n - 1);
    }
}

/// An element that is counted at least once occurs in the prefix.
pub proof fn lemma_count_below_positive<T>(s: Seq<T>, x: T, n: int)
    requires
        0 <= n <= s.len(),
    ensures
        count_below(s, x, n) > 0 <==> exists|i: int| 0 <= i < n && s[i] == x,
    decreases n,
{
    if n > 0 {
        lemma_count_below_positive(s, x, n - 1);
        if count_below(s, x, n) > 0 {
            if s[n - 1] == x {
                assert(0 <= n - 1 < n && s[n - 1] == x);
            } else {
                let i = choose|i: int| 0 <= i < n - 1 && s[i] == x;
                assert(0 <= i < n && s[i] == x);
            }
        }
    }
}

/// A count grows with the prefix it is taken over.
pub proof fn lemma_count_below_monotone<T>(s: Seq<T>, x: T, m: int, n: int)
    requires
        m <= n,
    ensures
        count_below(s, x, m) <= count_below(s, x, n),
    decreases n - m,
{
    if m < n {
        lemma_count_below_monotone(s, x, m, n - 1);
    }
}

/// A count over a prefix depends on that prefix only.
pub proof fn lemma_count_below_prefix<T>(s: Seq<T>, t: Seq<T>, x: T, n: int)
    requires
        n <= s.len(),
        n <= t.len(),
        forall|i: int| 0 <= i < n ==> s[i] == t[i],
    ensures
        count_below(s, x, n) == count_below(t, x, n),
    decreases n,
{
    if n > 0 {
        lemma_count_below_prefix(s, t, x, n - 1);
    }
}

/// The code point of a letter, the key under which letters are counted.
pub open spec fn code(c: char) -> u32 {
    c as u32
}

/// Two letters with one code point are one letter.
pub proof fn lemma_code_injective(c: char, d: char)
    ensures
        code(c) == code(d) <==> c == d,
{
}

/// Counting code points is counting letters.
pub proof fn lemma_count_codes(s: Seq<char>, codes: Seq<u32>, c: char, n: int)
    requires
        0 <= n <= s.len(),
        codes.len() == s.len(),
        forall|i: int| 0 <= i < s.len() ==> codes[i] == code(s[i]),
    ensures
        count_below(codes, code(c), n) == count_below(s, c, n),
    decreases n,
{
    if n > 0 {
        lemma_count_codes(s, codes, c, n - 1);
        lemma_code_injective(s[n - 1], c);
    }
}

/// The letters of `word`, in order.
pub fn letters(word: &str) -> (v: Vec<char>)
    ensures
        v@ == word@,
{
    let mut v: Vec<char> = Vec::new();
    for c in it: word.chars()
        invariant
            v@ == it.seq().take(it.index() as int),
            it.seq() == word@,
    {
        v.push(c);
    }
    v
}

/// The code point of `c`.
pub fn code_of(c: char) -> (x: u32)
    ensures
        x == code(c),
{
    c as u32
}

/// The code points of `letters`, in order.
pub fn letter_codes(letters: &[char]) -> (codes: Vec<u32>)
    ensures
        codes@.len() == letters@.len(),
        forall|i: int| 0 <= i < letters@.len() ==> codes@[i] == code(letters@[i]),
{
    let mut codes: Vec<u32> = Vec::with_capacity(letters.len());
    let mut i: usize = 0;
    while i < letters.len()
        invariant
            i <= letters.len(),
            codes@.len() == i,
            forall|j: int| 0 <= j < i ==> codes@[j] == code(letters@[j]),
        decreases letters.len() - i,
    {
        codes.push(code_of(letters[i]));
        i += 1;
    }
    codes
}

/// Counts how often each distinct element occurs in `text`.
pub fn unique_element_counts<T: Eq + Hash + Copy>(text: &[T]) -> (counts: HashMap<T, usize>)
    requires
        obeys_key_model::<T>(),
    ensures
        forall|x: T| counts@.contains_key(x) <==> count_of(text@, x) > 0,
        forall|x: T| counts@.contains_key(x) ==> counts@[x] == count_of(text@, x),
{
    broadcast use vstd::std_specs::hash::group_hash_axioms;

    let mut counts: HashMap<T, usize> = HashMap::new();
    let mut i: usize = 0;
    while i < text.len()
        invariant
            obeys_key_model::<T>(),
            i <= text.len(),
            forall|x: T| counts@.contains_key(x) <==> count_below(text@, x, i as int) > 0,
            forall|x: T| counts@.contains_key(x) ==> counts@[x] == count_below(text@, x, i as int),
        decreases text.len() - i,
    {
        let item = text[i];
        let seen: usize = match counts.get(&item) {
            Some(n) => *n,
            None => 0,
        };
        proof {
            lemma_count_below_bound(text@, item, i as int);
        }
        counts.insert(item, seen + 1);
        i += 1;
    }
    counts
}

} // verus!
