use vstd::prelude::*;

verus! {

/// `text` reads `word` from position `at` on.
pub open spec fn holds_at(text: Seq<char>, at: int, word: Seq<char>) -> bool {
    &&& 0 <= at
    &&& at + word.len() <= text.len()
    &&& text.subrange(at, at + word.len()) == word
}

/// `text` reads `word` somewhere.
pub open spec fn contains_text(text: Seq<char>, word: Seq<char>) -> bool {
    exists|at: int| holds_at(text, at, word)
}

/// The characters of `s`, one by one.
pub fn chars_of(s: &str) -> (chars: Vec<char>)
    ensures
        chars@ == s@,
{
    let mut chars: Vec<char> = Vec::new();
    for c in it: s.chars()
        invariant
            chars@ == it.seq().take(it.index()),
            it.seq() == s@,
    {
        chars.push(c);
    }
    chars
}

/// Decides `holds_at`.
pub fn word_at(text: &[char], at: usize, word: &[char]) -> (found: bool)
    ensures
        found == holds_at(text@, at as int, word@),
{
    if word.len() > text.len() || at > text.len() - word.len() {
        return false;
    }
    let mut k: usize = 0;
    while k < word.len()
        invariant
            k <= word.len(),
            at + word.len() <= text.len(),
            forall|j: int| 0 <= j < k ==> text@[at + j] == word@[j],
        decreases word.len() - k,
    {
        if text[at + k] != word[k] {
            assert(text@.subrange(at as int, at + word.len())[k as int] != word@[k as int]);
            return false;
        }
        k += 1;
    }
    assert(text@.subrange(at as int, at + word.len()) =~= word@);
    true
}

/// A word that `text` reads at `at` agrees with it character by character.
pub proof fn lemma_holds_at_index(text: Seq<char>, at: int, word: Seq<char>, k: int)
    requires
        holds_at(text, at, word),
        0 <= k < word.len(),
    ensures
        text[at + k] == word[k],
{
    assert(text.subrange(at, at + word.len())[k] == text[at + k]);
}

} // verus!
