//! The two analyses of a text: its keywords and its summary.
use crate::rake::{keywords_of, rake_keywords, KEYWORD_LIMIT};
use crate::stopwords::{english_stopwords, ENGLISH_STOPWORDS};
use crate::sentences::split_sentences;
use crate::text::{texts, words};
use crate::textrank::{ints, rank_sentences, select_top, summary_of};
use vstd::prelude::*;

verus! {

/// The keywords of `text` with the English stopwords: at most ten RAKE phrases, best first.
pub fn extract_keywords(text: &str) -> (r: Vec<String>)
    ensures
        texts(r@) == keywords_of(text@, words(ENGLISH_STOPWORDS@)),
        r.len() <= KEYWORD_LIMIT,
{
    let stop = english_stopwords();
    rake_keywords(text, &stop)
}

/// The summary of `text`: its `num_sentences` most central sentences, most central first.
pub fn extract_summary(text: &str, num_sentences: usize) -> (r: Vec<String>)
    ensures
        texts(r@) == summary_of(text@, num_sentences as int),
        r.len() <= num_sentences,
{
    let ss = split_sentences(text);
    let scores = rank_sentences(&ss);
    assert(ints(scores@).len() == ss.len());
    select_top(&ss, &scores, num_sentences)
}

} // verus!
