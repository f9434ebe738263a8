use rulebot::config::ParserConfig;
use rulebot::data_model::{AnswerHit, Card};
use rulebot::ranking::{candidate_outranks, rank, Candidate};
use rulebot::scoring::keyword::{prepare_keyword_index, score_keyword_overlap};
use rulebot::scoring::tfidf::{build_tfidf_index, query_term_counts, score_tfidf, TfidfIndex};
use rulebot::term_counts::TermCounts;
use rulebot::token_set::TokenSet;

fn config() -> ParserConfig {
    ParserConfig {
        split_on_non_alnum: true,
        keep_digits: true,
        min_token_length: 2,
        remove_stopwords: true,
        stopwords_path: None,
        topic_separator: "::".to_string(),
        include_subtree: true,
        idf_smoothing: true,
    }
}

fn stopwords() -> TokenSet {
    TokenSet::from_tokens(&vec!["the".to_string(), "is".to_string(), "of".to_string()])
}

fn card(guid: &str, question: &str) -> Card {
    Card {
        guid: guid.to_string(),
        question_text: question.to_string(),
        answer_raw: "answer".to_string(),
        deck_path: vec!["Deck".to_string()],
    }
}

fn candidate(position: usize, score: u64, overlap: usize, token_count: usize, guid: &str) -> Candidate {
    Candidate { position, score, overlap, token_count, guid: guid.to_string() }
}

fn positions(candidates: &[Candidate]) -> Vec<usize> {
    candidates.iter().map(|c| c.position).collect()
}

fn guids(hits: &[AnswerHit]) -> Vec<String> {
    hits.iter().map(|h| h.guid.clone()).collect()
}

fn scores(hits: &[AnswerHit]) -> Vec<u64> {
    hits.iter().map(|h| h.score).collect()
}

/// The smoothed inverse document frequency.
fn idf(document_count: usize, document_frequency: usize) -> f32 {
    ((document_count as f32 + 1.0) / (document_frequency as f32 + 1.0)).ln() + 1.0
}

/// The cosine similarity of the query to each document, as the bits of a
/// non-negative `f32`, whose order is that of the numbers.
fn similarities(index: &TfidfIndex, query: &TermCounts) -> Vec<u32> {
    let weight = |term: &String, count: usize| {
        count as f32 * idf(index.document_count, index.document_frequency.count_of(term))
    };
    let mut query_squares: f32 = 0.0;
    for entry in query.entries() {
        let w = weight(&entry.term, entry.count);
        query_squares += w * w;
    }
    let query_norm = query_squares.sqrt();
    let mut keys = Vec::new();
    for document in &index.documents {
        let mut squares: f32 = 0.0;
        for entry in document.term_frequencies.entries() {
            let w = weight(&entry.term, entry.count);
            squares += w * w;
        }
        let norm = squares.sqrt();
        let mut dot: f32 = 0.0;
        for entry in query.entries() {
            let count = document.term_frequencies.count_of(&entry.term);
            if count > 0 {
                dot += weight(&entry.term, entry.count) * weight(&entry.term, count);
            }
        }
        let similarity = if norm == 0.0 || query_norm == 0.0 || dot == 0.0 {
            0.0
        } else {
            dot / (query_norm * norm)
        };
        assert!((0.0..=1.0001).contains(&similarity));
        keys.push(similarity.to_bits());
    }
    keys
}

fn tfidf(cards: &[Card], query: &str, top_k: usize) -> Vec<AnswerHit> {
    let index = build_tfidf_index(cards, &stopwords(), &config());
    let counts = query_term_counts(query, &index, &stopwords(), &config());
    let keys = similarities(&index, &counts);
    score_tfidf(query, &index, &stopwords(), &config(), top_k, &keys)
}

#[test]
fn ranking_is_by_score_then_overlap_then_length_then_guid() {
    let ranked = rank(
        vec![
            candidate(0, 1, 1, 5, "a"),
            candidate(1, 3, 1, 9, "z"),
            candidate(2, 3, 2, 9, "y"),
            candidate(3, 3, 2, 4, "x"),
            candidate(4, 3, 2, 4, "b"),
            candidate(5, 2, 7, 1, "c"),
        ],
        10,
    );
    assert_eq!(positions(&ranked), vec![4, 3, 2, 1, 5, 0]);
}

#[test]
fn ranking_keeps_the_order_of_full_ties() {
    let ranked = rank(
        vec![
            candidate(0, 1, 1, 1, "same"),
            candidate(1, 2, 1, 1, "top"),
            candidate(2, 1, 1, 1, "same"),
            candidate(3, 1, 1, 1, "same"),
        ],
        4,
    );
    assert_eq!(positions(&ranked), vec![1, 0, 2, 3]);
}

#[test]
fn ranking_returns_at_most_top_k() {
    let make = || vec![candidate(0, 1, 1, 1, "a"), candidate(1, 5, 1, 1, "b"), candidate(2, 3, 1, 1, "c")];
    assert_eq!(positions(&rank(make(), 0)), Vec::<usize>::new());
    assert_eq!(positions(&rank(make(), 1)), vec![1]);
    assert_eq!(positions(&rank(make(), 2)), vec![1, 2]);
    assert_eq!(positions(&rank(make(), 3)), vec![1, 2, 0]);
    assert_eq!(positions(&rank(make(), usize::MAX)), vec![1, 2, 0]);
    assert_eq!(positions(&rank(Vec::new(), 3)), Vec::<usize>::new());
}

#[test]
fn outranking_compares_key_by_key() {
    let base = candidate(0, 2, 2, 2, "m");
    assert!(candidate_outranks(&candidate(1, 3, 0, 9, "z"), &base));
    assert!(candidate_outranks(&candidate(1, 2, 3, 9, "z"), &base));
    assert!(candidate_outranks(&candidate(1, 2, 2, 1, "z"), &base));
    assert!(candidate_outranks(&candidate(1, 2, 2, 2, "a"), &base));
    assert!(!candidate_outranks(&candidate(1, 2, 2, 2, "m"), &base));
    assert!(!candidate_outranks(&base, &base));
    assert!(!candidate_outranks(&candidate(1, 2, 2, 2, "n"), &base));
    assert!(!candidate_outranks(&candidate(1, 1, 9, 0, "a"), &base));
}

#[test]
fn prepared_questions_hold_token_sets_and_counts() {
    let cards = vec![card("g1", "The cat and the cat"), card("g2", "")];
    let index = prepare_keyword_index(&cards, &stopwords(), &config());
    assert_eq!(index.len(), 2);
    assert_eq!(index[0].guid, "g1");
    assert_eq!(index[0].question_preview, "The cat and the cat");
    assert_eq!(index[0].deck_path, vec!["Deck"]);
    assert_eq!(index[0].token_count, 3);
    assert_eq!(index[0].token_set.len(), 2);
    assert!(index[0].token_set.contains(&"cat".to_string()));
    assert!(index[0].token_set.contains(&"and".to_string()));
    assert_eq!(index[1].token_count, 0);
    assert!(index[1].token_set.is_empty());
}

#[test]
fn keyword_query_without_shared_token_has_no_hit() {
    let cards = vec![card("g1", "binary search trees"), card("g2", "hash tables")];
    let index = prepare_keyword_index(&cards, &stopwords(), &config());
    assert!(score_keyword_overlap("quantum physics", &index, &stopwords(), &config(), 5).is_empty());
    assert!(score_keyword_overlap("", &index, &stopwords(), &config(), 5).is_empty());
    assert!(score_keyword_overlap("the of is", &index, &stopwords(), &config(), 5).is_empty());
}

#[test]
fn keyword_score_is_the_number_of_shared_tokens() {
    let cards = vec![
        card("g1", "binary search trees"),
        card("g2", "binary numbers"),
        card("g3", "search search search"),
        card("g4", "unrelated"),
    ];
    let index = prepare_keyword_index(&cards, &stopwords(), &config());
    let hits = score_keyword_overlap("Binary SEARCH binary", &index, &stopwords(), &config(), 10);
    assert_eq!(guids(&hits), vec!["g1", "g2", "g3"]);
    assert_eq!(scores(&hits), vec![2, 1, 1]);
    assert_eq!(hits[0].question_preview, Some("binary search trees".to_string()));
    assert_eq!(hits[0].deck_path, vec!["Deck"]);
}

#[test]
fn keyword_tie_prefers_the_shorter_question() {
    let cards = vec![
        card("g1", "sorting algorithms compared in detail"),
        card("g2", "sorting algorithms"),
    ];
    let index = prepare_keyword_index(&cards, &stopwords(), &config());
    let hits = score_keyword_overlap("sorting algorithms", &index, &stopwords(), &config(), 2);
    assert_eq!(guids(&hits), vec!["g2", "g1"]);
    assert_eq!(scores(&hits), vec![2, 2]);
}

#[test]
fn keyword_full_tie_is_broken_by_guid() {
    let cards = vec![card("b", "graph theory"), card("a", "graph theory"), card("c", "graph theory")];
    let index = prepare_keyword_index(&cards, &stopwords(), &config());
    let hits = score_keyword_overlap("graph", &index, &stopwords(), &config(), 3);
    assert_eq!(guids(&hits), vec!["a", "b", "c"]);
    let again = score_keyword_overlap("graph", &index, &stopwords(), &config(), 3);
    assert_eq!(guids(&again), guids(&hits));
    assert_eq!(scores(&again), scores(&hits));
}

#[test]
fn keyword_top_k_bounds_the_hits() {
    let cards = vec![card("g1", "alpha beta"), card("g2", "alpha"), card("g3", "gamma")];
    let index = prepare_keyword_index(&cards, &stopwords(), &config());
    assert!(score_keyword_overlap("alpha", &index, &stopwords(), &config(), 0).is_empty());
    assert_eq!(guids(&score_keyword_overlap("alpha", &index, &stopwords(), &config(), 1)), vec!["g2"]);
    assert_eq!(
        guids(&score_keyword_overlap("alpha", &index, &stopwords(), &config(), 100)),
        vec!["g2", "g1"]
    );
}

#[test]
fn index_counts_terms_and_documents() {
    let cards = vec![
        card("g1", "the cat sat on the cat mat"),
        card("g2", "cat food"),
        card("g3", ""),
    ];
    let index = build_tfidf_index(&cards, &stopwords(), &config());
    assert_eq!(index.document_count, 3);
    assert_eq!(index.documents.len(), 3);
    assert_eq!(index.vocabulary_size, 5);
    assert_eq!(index.document_frequency.len(), 5);
    assert_eq!(index.document_frequency.count_of(&"cat".to_string()), 2);
    assert_eq!(index.document_frequency.count_of(&"mat".to_string()), 1);
    assert_eq!(index.document_frequency.count_of(&"food".to_string()), 1);
    assert_eq!(index.document_frequency.count_of(&"the".to_string()), 0);
    assert_eq!(index.documents[0].guid, "g1");
    assert_eq!(index.documents[0].token_count, 5);
    assert_eq!(index.documents[0].term_frequencies.count_of(&"cat".to_string()), 2);
    assert_eq!(index.documents[0].term_frequencies.count_of(&"sat".to_string()), 1);
    assert_eq!(index.documents[0].term_frequencies.count_of(&"food".to_string()), 0);
    assert_eq!(index.documents[0].term_frequencies.len(), 4);
    assert_eq!(index.documents[2].token_count, 0);
    assert_eq!(index.documents[2].term_frequencies.len(), 0);
}

#[test]
fn every_document_term_has_a_document_frequency() {
    let cards = vec![card("g1", "red green blue"), card("g2", "green blue"), card("g3", "blue")];
    let index = build_tfidf_index(&cards, &stopwords(), &config());
    for document in &index.documents {
        for entry in document.term_frequencies.entries() {
            let frequency = index.document_frequency.count_of(&entry.term);
            assert!(1 <= frequency && frequency <= index.document_count);
        }
    }
    assert_eq!(index.document_frequency.count_of(&"blue".to_string()), 3);
}

#[test]
fn smoothed_idf_of_a_term_in_every_document_is_one() {
    assert_eq!(idf(3, 3), 1.0);
    assert_eq!(idf(1, 1), 1.0);
    assert!(idf(3, 1) > idf(3, 2));
    assert!(idf(3, 2) > idf(3, 3));
    assert!((idf(3, 1) - (2.0f32.ln() + 1.0)).abs() < 1e-6);
}

#[test]
fn query_terms_outside_the_corpus_are_left_out() {
    let cards = vec![card("g1", "red green"), card("g2", "green blue")];
    let index = build_tfidf_index(&cards, &stopwords(), &config());
    let counts = query_term_counts("green purple GREEN red", &index, &stopwords(), &config());
    assert_eq!(counts.len(), 2);
    assert_eq!(counts.count_of(&"green".to_string()), 2);
    assert_eq!(counts.count_of(&"red".to_string()), 1);
    assert_eq!(counts.count_of(&"purple".to_string()), 0);
}

#[test]
fn tfidf_query_of_unknown_terms_has_no_hit() {
    let cards = vec![card("g1", "binary search trees"), card("g2", "hash tables")];
    assert!(tfidf(&cards, "quantum physics", 5).is_empty());
    assert!(tfidf(&cards, "", 5).is_empty());
    assert!(tfidf(&cards, "the of", 5).is_empty());
}

#[test]
fn tfidf_ranks_by_similarity() {
    let cards = vec![
        card("g1", "binary search trees and heaps"),
        card("g2", "binary search"),
        card("g3", "hash tables"),
        card("g4", "search engines"),
    ];
    let hits = tfidf(&cards, "binary search", 10);
    assert_eq!(guids(&hits), vec!["g2", "g1", "g4"]);
    assert!(f32::from_bits(hits[0].score as u32) > 0.999);
    for pair in hits.windows(2) {
        assert!(pair[0].score >= pair[1].score);
    }
    for hit in &hits {
        let similarity = f32::from_bits(hit.score as u32);
        assert!(similarity > 0.0 && similarity <= 1.0001);
    }
    assert_eq!(hits[1].question_preview, Some("binary search trees and heaps".to_string()));
}

#[test]
fn tfidf_tie_in_similarity_is_broken_by_guid() {
    let cards = vec![card("b", "graph theory"), card("a", "graph theory"), card("c", "graph theory")];
    let first = tfidf(&cards, "graph theory", 3);
    let second = tfidf(&cards, "graph theory", 3);
    assert_eq!(guids(&first), vec!["a", "b", "c"]);
    assert_eq!(guids(&first), guids(&second));
    assert_eq!(scores(&first), scores(&second));
}

#[test]
fn tfidf_tie_in_similarity_prefers_the_greater_overlap() {
    let cards = vec![card("g1", "alpha"), card("g2", "alpha beta"), card("g3", "gamma")];
    let index = build_tfidf_index(&cards, &stopwords(), &config());
    let hits = score_tfidf("alpha beta", &index, &stopwords(), &config(), 5, &[7, 7, 9]);
    assert_eq!(guids(&hits), vec!["g2", "g1"]);
    assert_eq!(scores(&hits), vec![7, 7]);
}

#[test]
fn tfidf_top_k_bounds_the_hits() {
    let cards = vec![card("g1", "alpha beta"), card("g2", "alpha"), card("g3", "gamma")];
    assert!(tfidf(&cards, "alpha", 0).is_empty());
    assert_eq!(guids(&tfidf(&cards, "alpha", 1)), vec!["g2"]);
    assert_eq!(guids(&tfidf(&cards, "alpha", 100)), vec!["g2", "g1"]);
}

#[test]
fn term_counts_tally_tokens() {
    let tokens: Vec<String> = ["a", "b", "a", "c", "a"].iter().map(|s| s.to_string()).collect();
    let mut counts = TermCounts::tally(&tokens);
    assert_eq!(counts.len(), 3);
    assert_eq!(counts.count_of(&"a".to_string()), 3);
    assert_eq!(counts.count_of(&"b".to_string()), 1);
    assert_eq!(counts.count_of(&"z".to_string()), 0);
    let terms: Vec<(String, usize)> =
        counts.entries().iter().map(|e| (e.term.clone(), e.count)).collect();
    assert_eq!(terms, vec![("a".to_string(), 3), ("b".to_string(), 1), ("c".to_string(), 1)]);
    let set = TokenSet::from_tokens(&vec!["c".to_string(), "a".to_string(), "q".to_string()]);
    assert_eq!(counts.shared_terms(&set), 2);
    let other = TermCounts::tally(&vec!["b".to_string(), "d".to_string(), "d".to_string()]);
    counts.count_document(&other);
    assert_eq!(counts.count_of(&"a".to_string()), 3);
    assert_eq!(counts.count_of(&"b".to_string()), 2);
    assert_eq!(counts.count_of(&"d".to_string()), 1);
    assert_eq!(TermCounts::new().len(), 0);
}
