use layouts_rs::corpus::word_ngrams;

#[test]
fn corpus_splits_words_into_ngrams() {
    let ngrams = word_ngrams("abcde");
    assert_eq!(ngrams.unigrams, vec!['a', 'b', 'c', 'd', 'e']);
    assert_eq!(ngrams.bigrams, vec![('a', 'b'), ('b', 'c'), ('c', 'd'), ('d', 'e')]);
    assert_eq!(ngrams.trigrams, vec![('a', 'b', 'c'), ('b', 'c', 'd'), ('c', 'd', 'e')]);
}

#[test]
fn corpus_short_words_have_fewer_ngrams() {
    let ngrams = word_ngrams("ab");
    assert_eq!(ngrams.bigrams, vec![('a', 'b')]);
    assert!(ngrams.trigrams.is_empty());
    let empty = word_ngrams("");
    assert!(empty.unigrams.is_empty() && empty.bigrams.is_empty() && empty.trigrams.is_empty());
    let accented = word_ngrams("été");
    assert_eq!(accented.unigrams, vec!['é', 't', 'é']);
    assert_eq!(accented.trigrams, vec![('é', 't', 'é')]);
}
