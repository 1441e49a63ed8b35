use lecture_digest::rake::{split_phrases, word_score_of, word_stats, WordStat, KEYWORD_LIMIT, SCALE};
use lecture_digest::sentences::split_sentences;
use lecture_digest::stopwords::english_stopwords;
use lecture_digest::text::tokenize;
use lecture_digest::textrank::{rank_sentences, similarity_graph};
use lecture_digest::{extract_keywords, extract_summary};

const ML_TEXT: &str =
    "Machine learning is powerful. Deep learning uses neural networks. Neural networks are powerful.";

fn stats_of(text: &str) -> Vec<WordStat> {
    let stop = english_stopwords();
    let toks = tokenize(text);
    let phrases = split_phrases(&toks, &stop);
    word_stats(&phrases)
}

fn stat<'a>(table: &'a [WordStat], word: &str) -> &'a WordStat {
    table.iter().find(|s| s.word == word).expect("word is tallied")
}

#[test]
fn keywords_of_machine_learning_text() {
    assert_eq!(
        extract_keywords(ML_TEXT),
        vec![
            "powerful deep learning uses neural networks neural networks".to_string(),
            "machine learning".to_string(),
            "powerful".to_string(),
        ]
    );
}

#[test]
fn summary_of_machine_learning_text() {
    let ss = split_sentences(ML_TEXT);
    assert_eq!(
        ss,
        vec![
            "Machine learning is powerful.".to_string(),
            "Deep learning uses neural networks.".to_string(),
            "Neural networks are powerful.".to_string(),
        ]
    );
    let w = similarity_graph(&ss);
    assert_eq!(w, vec![vec![0, 222_222, 250_000], vec![222_222, 0, 0], vec![250_000, 0, 0]]);
    // Words are compared as written: "Neural" and "neural", "networks." and "networks" differ.
    assert!(w[1][2] < w[0][1]);
    let scores = rank_sentences(&ss);
    assert_eq!(scores, vec![1_441_644, 742_160, 816_181]);
    assert_eq!(
        extract_summary(ML_TEXT, 2),
        vec!["Machine learning is powerful.".to_string(), "Neural networks are powerful.".to_string()]
    );
}

#[test]
fn tallies_of_cat_dog_text() {
    // The full stops are removed before splitting, so all six tokens form one phrase.
    let table = stats_of("cat cat cat. dog dog dog.");
    assert_eq!(table.len(), 2);
    let cat = stat(&table, "cat");
    assert_eq!(cat.frequency, 3);
    assert_eq!(cat.degree, 15);
    assert_eq!(word_score_of(cat.frequency, cat.degree), 6 * SCALE);
}

#[test]
fn single_word_phrases_score_one() {
    let table = stats_of("cat and cat and cat");
    let cat = stat(&table, "cat");
    assert_eq!(cat.frequency, 3);
    assert_eq!(cat.degree, 0);
    assert_eq!(word_score_of(cat.frequency, cat.degree), SCALE);
    assert_eq!(extract_keywords("cat and cat and cat"), vec!["cat".to_string()]);
}

#[test]
fn keywords_are_capped_at_ten() {
    let text = "wa xa and wb xb and wc xc and wd xd and we xe and wf xf and wg xg and wh xh and wi xi and wj xj and wk xk and wl xl";
    let kws = extract_keywords(text);
    assert_eq!(kws.len(), KEYWORD_LIMIT);
    assert_eq!(kws[0], "wa xa");
    assert_eq!(kws[3], "wd xd");
    // "we" is a stopword, so "xe" stands alone and scores lower than every pair.
    assert_eq!(kws[4], "wf xf");
    assert_eq!(kws[9], "wk xk");
}

#[test]
fn summary_is_capped_at_the_number_asked() {
    let text = "One fish. Two fish. Red fish. Blue fish.";
    assert_eq!(
        extract_summary(text, 2),
        vec!["One fish.".to_string(), "Two fish.".to_string()]
    );
    assert_eq!(extract_summary(text, 0), Vec::<String>::new());
    assert_eq!(extract_summary(text, 9).len(), 4);
    assert_eq!(rank_sentences(&split_sentences(text)), vec![999_999; 4]);
}

#[test]
fn repeated_calls_agree() {
    assert_eq!(extract_keywords(ML_TEXT), extract_keywords(ML_TEXT));
    assert_eq!(extract_summary(ML_TEXT, 2), extract_summary(ML_TEXT, 2));
}

#[test]
fn higher_degree_scores_no_lower() {
    assert_eq!(word_score_of(2, 0), SCALE);
    assert_eq!(word_score_of(2, 3), 2_500_000);
    assert!(word_score_of(2, 4) >= word_score_of(2, 3));
    assert_eq!(word_score_of(3, 1), 1_333_333);
    assert_eq!(word_score_of(0, 0), 0);
}

#[test]
fn empty_text_gives_nothing() {
    assert_eq!(extract_keywords(""), Vec::<String>::new());
    assert_eq!(extract_summary("", 3), Vec::<String>::new());
}

#[test]
fn stopword_text_has_no_keywords() {
    assert_eq!(extract_keywords("The and of it, to be."), Vec::<String>::new());
}

#[test]
fn one_sentence_is_its_own_summary() {
    assert_eq!(
        extract_summary("Only one sentence here.", 5),
        vec!["Only one sentence here.".to_string()]
    );
}

#[test]
fn tallies_are_reproducible() {
    let text = "Rapid automatic keyword extraction finds key phrases. Stop words split the text into candidate phrases, and each candidate phrase gets a score.";
    let a = stats_of(text);
    let b = stats_of(text);
    assert_eq!(a.len(), b.len());
    for (x, y) in a.iter().zip(b.iter()) {
        assert_eq!(x.word, y.word);
        assert_eq!(x.frequency, y.frequency);
        assert_eq!(x.degree, y.degree);
    }
    let phrases = stat(&a, "phrases");
    assert_eq!((phrases.frequency, phrases.degree), (2, 10));
    let candidate = stat(&a, "candidate");
    assert_eq!((candidate.frequency, candidate.degree), (2, 3));
}

#[test]
fn tokens_are_lowercased_without_marks() {
    assert_eq!(
        tokenize("Hello, WORLD! (Big) [data]; \"quoted\"?"),
        vec!["hello", "world", "big", "data", "quoted"]
    );
    assert_eq!(tokenize("a.b"), vec!["ab"]);
}

#[test]
fn sentence_splits_skip_abbreviations() {
    assert_eq!(
        split_sentences("Mr. Smith went home. He slept? Yes. See e.g. this one."),
        vec!["Mr. Smith went home.", "He slept?", "Yes.", "See e.g. this one."]
    );
    assert_eq!(split_sentences("  A.   B.  "), vec!["A.", "B."]);
}

#[test]
fn unconnected_sentences_keep_reading_order() {
    assert_eq!(
        extract_summary("cat cat cat. dog dog dog.", 5),
        vec!["cat cat cat.".to_string(), "dog dog dog.".to_string()]
    );
    assert_eq!(rank_sentences(&split_sentences("cat cat cat. dog dog dog.")), vec![150_000, 150_000]);
}

#[test]
fn english_stopword_list() {
    let stop = english_stopwords();
    assert_eq!(stop.len(), 184);
    assert_eq!(stop[0], "a");
    assert!(stop.iter().any(|s| s == "yourselves"));
    assert!(stop.iter().all(|s| s.to_lowercase() == *s));
}
