use vstd::prelude::*;

use crate::text::chars_of;

verus! {

/// The n-grams of one word, in the order they occur: each character, each
/// pair of neighbouring characters, and each run of three.
#[derive(Debug, Clone, PartialEq, Eq)]
pub struct WordNgrams {
    pub unigrams: Vec<char>,
    pub bigrams: Vec<(char, char)>,
    pub trigrams: Vec<(char, char, char)>,
}

/// The pairs of neighbouring characters of `w`.
pub open spec fn bigrams_of(w: Seq<char>) -> Seq<(char, char)> {
    Seq::new((if w.len() >= 1 { w.len() - 1 } else { 0 }) as nat, |i: int| (w[i], w[i + 1]))
}

/// The runs of three neighbouring characters of `w`.
pub open spec fn trigrams_of(w: Seq<char>) -> Seq<(char, char, char)> {
    Seq::new((if w.len() >= 2 { w.len() - 2 } else { 0 }) as nat, |i: int| (w[i], w[i + 1], w[i + 2]))
}

/// Splits a word into its n-grams; a corpus counts each of them once per
/// occurrence of the word.
pub fn word_ngrams(word: &str) -> (res: WordNgrams)
    ensures
        res.unigrams@ == word@,
        res.bigrams@ == bigrams_of(word@),
        res.trigrams@ == trigrams_of(word@),
{
    let chars = chars_of(word);
    let mut bigrams: Vec<(char, char)> = Vec::new();
    let mut trigrams: Vec<(char, char, char)> = Vec::new();
    for i in 0..chars.len()
        invariant
            chars@ == word@,
            bigrams@ == bigrams_of(chars@.take(i as int)),
            trigrams@ == trigrams_of(chars@.take(i as int)),
    {
        if i >= 1 {
            bigrams.push((chars[i - 1], chars[i]));
        }
        if i >= 2 {
            trigrams.push((chars[i - 2], chars[i - 1], chars[i]));
        }
        assert(bigrams@ =~= bigrams_of(chars@.take(i + 1)));
        assert(trigrams@ =~= trigrams_of(chars@.take(i + 1)));
    }
    assert(chars@.take(chars.len() as int) =~= chars@);
    WordNgrams { unigrams: chars, bigrams, trigrams }
}

} // verus!
