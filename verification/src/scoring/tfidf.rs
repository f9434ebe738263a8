//! The counting and ranking stages of TF-IDF scoring. The index holds, for
//! each document, how often each term occurs in it, and for each term the
//! number of documents that hold it. Weights and cosine similarities are
//! real numbers and are computed by the caller, who hands the similarity of
//! each document back as an integer whose order is that of the
//! similarities; the ranking by similarity, overlap, length and identifier
//! is done here.

use vstd::prelude::*;
use crate::config::ParserConfig;
use crate::data_model::{clone_path, hit_views, make_hit, AnswerHit, AnswerHitView, Card, CardView};
use crate::ranking::{
    best, candidate_views, lemma_best_members, lemma_best_of_all,
    lemma_ranked_order, rank, ranked, shares_a_token,
    Candidate, CandidateView,
};
use crate::term_counts::{term_counts, TermCounts};
use crate::text::texts;
use crate::token_set::TokenSet;
use crate::tokenise::{tokenise, tokenise_to_set, tokens_of};

verus! {

/// One document of the index: the term counts of a card's question, the
/// number of its tokens, and what a hit shows of the card.
#[derive(Debug, Clone)]
pub struct DocumentEntry {
    pub guid: String,
    pub deck_path: Vec<String>,
    pub question_preview: String,
    pub term_frequencies: TermCounts,
    pub token_count: usize,
}

/// What a document holds, as texts and a table over texts.
pub struct DocumentView {
    pub guid: Seq<char>,
    pub deck_path: Seq<Seq<char>>,
    pub question_preview: Seq<char>,
    pub term_frequencies: Map<Seq<char>, nat>,
    pub token_count: nat,
}

impl View for DocumentEntry {
    type V = DocumentView;

    open spec fn view(&self) -> DocumentView {
        DocumentView {
            guid: self.guid@,
            deck_path: texts(self.deck_path@),
            question_preview: self.question_preview@,
            term_frequencies: self.term_frequencies@,
            token_count: self.token_count as nat,
        }
    }
}

/// The views of a sequence of documents.
pub open spec fn document_views(documents: Seq<DocumentEntry>) -> Seq<DocumentView> {
    documents.map_values(|d: DocumentEntry| d@)
}

/// The index: the documents, the document frequency of every term that
/// occurs in one of them, the number of such terms, and the number of
/// documents.
#[derive(Debug, Clone)]
pub struct TfidfIndex {
    pub documents: Vec<DocumentEntry>,
    pub document_frequency: TermCounts,
    pub vocabulary_size: usize,
    pub document_count: usize,
}

/// The document that a card gives.
pub open spec fn document_of(
    card: CardView,
    stopwords: Set<Seq<char>>,
    min_length: nat,
    remove_stopwords: bool,
) -> DocumentView {
    let tokens = tokens_of(card.question_text, stopwords, min_length, remove_stopwords);
    DocumentView {
        guid: card.guid,
        deck_path: card.deck_path,
        question_preview: card.question_text,
        term_frequencies: term_counts(tokens),
        token_count: tokens.len(),
    }
}

/// The number of documents in which `term` occurs.
pub open spec fn document_frequency(documents: Seq<DocumentView>, term: Seq<char>) -> nat
    decreases documents.len(),
{
    if documents.len() == 0 {
        0
    } else if documents.last().term_frequencies.contains_key(term) {
        document_frequency(documents.drop_last(), term) + 1
    } else {
        document_frequency(documents.drop_last(), term)
    }
}

/// The table of document frequencies: each term that occurs in a document,
/// with the number of documents in which it occurs.
pub open spec fn document_frequencies(documents: Seq<DocumentView>) -> Map<Seq<char>, nat> {
    Map::new(
        |term: Seq<char>| document_frequency(documents, term) > 0,
        |term: Seq<char>| document_frequency(documents, term),
    )
}

/// Whether `index` is the index of `documents`.
pub open spec fn indexes(index: TfidfIndex, documents: Seq<DocumentView>) -> bool {
    &&& document_views(index.documents@) == documents
    &&& index.document_frequency@ == document_frequencies(documents)
    &&& index.document_frequency@.dom().finite()
    &&& index.vocabulary_size == index.document_frequency@.dom().len()
    &&& index.document_count == documents.len()
}

/// A term occurs in no more documents than there are, and in at least one
/// exactly if some document holds it.
pub proof fn lemma_document_frequency(documents: Seq<DocumentView>, term: Seq<char>)
    ensures
        document_frequency(documents, term) <= documents.len(),
        document_frequency(documents, term) > 0 <==> exists|i: int|
            0 <= i < documents.len() && (#[trigger] documents[i]).term_frequencies.contains_key(
                term,
            ),
    decreases documents.len(),
{
    if documents.len() > 0 {
        let shorter = documents.drop_last();
        lemma_document_frequency(shorter, term);
        if exists|i: int|
            0 <= i < documents.len() && (#[trigger] documents[i]).term_frequencies.contains_key(
                term,
            ) {
            let i = choose|i: int|
                0 <= i < documents.len() && (#[trigger] documents[i]).term_frequencies.contains_key(
                    term,
                );
            if i < documents.len() - 1 {
                assert(shorter[i].term_frequencies.contains_key(term));
            }
        }
    }
}

/// Builds the index of the cards' questions.
pub fn build_tfidf_index(
    candidate_cards: &[Card],
    stopword_set: &TokenSet,
    parser_config: &ParserConfig,
) -> (index: TfidfIndex)
    ensures
        index.documents.len() == candidate_cards.len(),
        forall|i: int|
            0 <= i < candidate_cards.len() ==> (#[trigger] index.documents[i])@ == document_of(
                candidate_cards[i]@,
                stopword_set@,
                parser_config.min_token_length as nat,
                parser_config.remove_stopwords,
            ),
        indexes(index, document_views(index.documents@)),
{
    let mut documents: Vec<DocumentEntry> = Vec::new();
    let mut document_frequency = TermCounts::new();
    let mut i: usize = 0;
    while i < candidate_cards.len()
        invariant
            i <= candidate_cards.len(),
            documents.len() == i,
            forall|k: int|
                0 <= k < i ==> (#[trigger] documents[k])@ == document_of(
                    candidate_cards[k]@,
                    stopword_set@,
                    parser_config.min_token_length as nat,
                    parser_config.remove_stopwords,
                ),
            document_frequency@ == document_frequencies(document_views(documents@)),
        decreases candidate_cards.len() - i,
    {
        let card = &candidate_cards[i];
        let token_vector = tokenise(card.question_text.as_str(), stopword_set, parser_config);
        let term_frequencies = TermCounts::tally(&token_vector);
        let ghost before = document_views(documents@);
        proof {
            assert forall|term: Seq<char>| document_frequency@.contains_key(term) implies #[trigger]
                document_frequency@[term] < usize::MAX by {
                lemma_document_frequency(before, term);
            }
        }
        document_frequency.count_document(&term_frequencies);
        let document = DocumentEntry {
            guid: card.guid.clone(),
            deck_path: clone_path(&card.deck_path),
            question_preview: card.question_text.clone(),
            term_frequencies,
            token_count: token_vector.len(),
        };
        proof {
            let after = document_views(documents@.push(document));
            assert(after.drop_last() =~= before);
        }
        documents.push(document);
        i += 1;
    }
    let vocabulary_size = document_frequency.len();
    let document_count = documents.len();
    TfidfIndex { documents, document_frequency, vocabulary_size, document_count }
}

/// The terms of a query that the index knows, each with the number of its
/// occurrences in the query. Terms that occur in no document are left out:
/// they are no part of the vector space.
pub open spec fn known_query_terms(
    query_tokens: Seq<Seq<char>>,
    frequencies: Map<Seq<char>, nat>,
) -> Map<Seq<char>, nat> {
    term_counts(query_tokens.filter(|term: Seq<char>| frequencies.contains_key(term)))
}

/// Counts the terms of the query that occur in some document of the index.
pub fn query_term_counts(
    query_text: &str,
    tfidf_index: &TfidfIndex,
    stopword_set: &TokenSet,
    parser_config: &ParserConfig,
) -> (counts: TermCounts)
    ensures
        counts@ == known_query_terms(
            tokens_of(
                query_text@,
                stopword_set@,
                parser_config.min_token_length as nat,
                parser_config.remove_stopwords,
            ),
            tfidf_index.document_frequency@,
        ),
{
    let query_tokens = tokenise(query_text, stopword_set, parser_config);
    let ghost all = texts(query_tokens@);
    let ghost known = |term: Seq<char>| tfidf_index.document_frequency@.contains_key(term);
    let mut kept: Vec<String> = Vec::new();
    let mut i: usize = 0;
    while i < query_tokens.len()
        invariant
            i <= query_tokens.len(),
            all == texts(query_tokens@),
            known == |term: Seq<char>| tfidf_index.document_frequency@.contains_key(term),
            texts(kept@) == all.take(i as int).filter(known),
        decreases query_tokens.len() - i,
    {
        let token = &query_tokens[i];
        let in_corpus = tfidf_index.document_frequency.count_of(token) > 0;
        proof {
            assert(all.take(i + 1) =~= all.take(i as int).push(token@));
            all.take(i as int).lemma_filter_push(token@, known);
        }
        if in_corpus {
            kept.push(token.clone());
        }
        i += 1;
    }
    assert(all.take(query_tokens.len() as int) =~= all);
    TermCounts::tally(&kept)
}

/// The number of distinct terms that a document shares with a query.
pub open spec fn shared_terms(query: Set<Seq<char>>, document: DocumentView) -> nat {
    document.term_frequencies.dom().intersect(query).len()
}

/// The candidate that the document at `position` gives: its score stands
/// for its similarity to the query.
pub open spec fn tfidf_candidate(
    query: Set<Seq<char>>,
    document: DocumentView,
    similarity: u32,
    position: int,
) -> CandidateView {
    CandidateView {
        position: position as usize,
        score: similarity as u64,
        overlap: shared_terms(query, document) as usize,
        token_count: document.token_count as usize,
        guid: document.guid,
    }
}

/// The candidates of a query: one for each document that shares a term with
/// it, in the order of the index.
pub open spec fn tfidf_candidates(
    query: Set<Seq<char>>,
    documents: Seq<DocumentView>,
    similarities: Seq<u32>,
) -> Seq<CandidateView> {
    Seq::new(
        documents.len(),
        |i: int| tfidf_candidate(query, documents[i], similarities[i], i),
    ).filter(shares_a_token())
}

/// The hit that is shown for the document that a candidate stands for.
pub open spec fn document_hit(documents: Seq<DocumentView>, c: CandidateView) -> AnswerHitView {
    AnswerHitView {
        guid: documents[c.position as int].guid,
        score: c.score,
        question_preview: Some(documents[c.position as int].question_preview),
        deck_path: documents[c.position as int].deck_path,
    }
}

/// The hits of a query: its candidates, ranked, the best `top_k` of them.
pub open spec fn tfidf_hits(
    query: Set<Seq<char>>,
    documents: Seq<DocumentView>,
    similarities: Seq<u32>,
    top_k: nat,
) -> Seq<AnswerHitView> {
    best(tfidf_candidates(query, documents, similarities), top_k).map_values(
        |c: CandidateView| document_hit(documents, c),
    )
}

/// Each of the best candidates of a query stands for the document at its
/// position, which lies within the index, and shares a term with the query.
pub proof fn lemma_tfidf_best_in_index(
    query: Set<Seq<char>>,
    documents: Seq<DocumentView>,
    similarities: Seq<u32>,
    top_k: nat,
    i: int,
)
    requires
        0 <= i < best(tfidf_candidates(query, documents, similarities), top_k).len(),
        documents.len() <= usize::MAX,
    ensures
        0 <= best(tfidf_candidates(query, documents, similarities), top_k)[i].position
            < documents.len(),
        best(tfidf_candidates(query, documents, similarities), top_k)[i] == tfidf_candidate(
            query,
            documents[best(tfidf_candidates(query, documents, similarities), top_k)[i].position as int],
            similarities[best(tfidf_candidates(query, documents, similarities), top_k)[i].position as int],
            best(tfidf_candidates(query, documents, similarities), top_k)[i].position as int,
        ),
        best(tfidf_candidates(query, documents, similarities), top_k)[i].overlap >= 1,
{
    let all = Seq::new(
        documents.len(),
        |i: int| tfidf_candidate(query, documents[i], similarities[i], i),
    );
    let candidates = tfidf_candidates(query, documents, similarities);
    let c = best(candidates, top_k)[i];
    lemma_best_members(candidates, top_k, i);
    all.lemma_filter_contains_rev(shares_a_token(), c);
}

/// Ranks the documents of the index against a query. `similarities` holds
/// for each document, at the document's position, an integer that stands for
/// its cosine similarity to the query: a greater integer for a greater
/// similarity. Each document that shares a term with the query is a hit,
/// with that integer as its score; the best `top_k` hits are returned, best
/// first.
pub fn score_tfidf(
    query_text: &str,
    tfidf_index: &TfidfIndex,
    stopword_set: &TokenSet,
    parser_config: &ParserConfig,
    top_k: usize,
    similarities: &[u32],
) -> (hits: Vec<AnswerHit>)
    requires
        similarities.len() == tfidf_index.documents.len(),
    ensures
        hit_views(hits@) == tfidf_hits(
            tokens_of(
                query_text@,
                stopword_set@,
                parser_config.min_token_length as nat,
                parser_config.remove_stopwords,
            ).to_set(),
            document_views(tfidf_index.documents@),
            similarities@,
            top_k as nat,
        ),
{
    let query_token_set = tokenise_to_set(query_text, stopword_set, parser_config);
    let ghost query = query_token_set@;
    let ghost documents = document_views(tfidf_index.documents@);
    let ghost all = Seq::new(
        documents.len(),
        |i: int| tfidf_candidate(query, documents[i], similarities@[i], i),
    );
    let mut candidates: Vec<Candidate> = Vec::new();
    let mut i: usize = 0;
    while i < tfidf_index.documents.len()
        invariant
            i <= tfidf_index.documents.len(),
            similarities.len() == tfidf_index.documents.len(),
            query == query_token_set@,
            documents == document_views(tfidf_index.documents@),
            all == Seq::new(
                documents.len(),
                |i: int| tfidf_candidate(query, documents[i], similarities@[i], i),
            ),
            candidate_views(candidates@) == all.take(i as int).filter(shares_a_token()),
        decreases tfidf_index.documents.len() - i,
    {
        let document = &tfidf_index.documents[i];
        let overlap_count = document.term_frequencies.shared_terms(&query_token_set);
        proof {
            assert(all.take(i + 1) =~= all.take(i as int).push(all[i as int]));
            all.take(i as int).lemma_filter_push(all[i as int], shares_a_token());
        }
        if overlap_count > 0 {
            let candidate = Candidate {
                position: i,
                score: similarities[i] as u64,
                overlap: overlap_count,
                token_count: document.token_count,
                guid: document.guid.clone(),
            };
            candidates.push(candidate);
        }
        i += 1;
    }
    proof {
        assert(all.take(tfidf_index.documents.len() as int) =~= all);
    }
    let chosen = rank(candidates, top_k);
    let document_count = tfidf_index.documents.len();
    let ghost chosen_views = candidate_views(chosen@);
    let ghost to_hit = |c: CandidateView| document_hit(documents, c);
    let mut hits: Vec<AnswerHit> = Vec::new();
    let mut j: usize = 0;
    while j < chosen.len()
        invariant
            j <= chosen.len(),
            documents == document_views(tfidf_index.documents@),
            documents.len() == document_count,
            chosen_views == candidate_views(chosen@),
            chosen_views == best(tfidf_candidates(query, documents, similarities@), top_k as nat),
            to_hit == |c: CandidateView| document_hit(documents, c),
            hit_views(hits@) == chosen_views.take(j as int).map_values(to_hit),
        decreases chosen.len() - j,
    {
        let candidate = &chosen[j];
        proof {
            lemma_tfidf_best_in_index(query, documents, similarities@, top_k as nat, j as int);
        }
        let document = &tfidf_index.documents[candidate.position];
        let hit = make_hit(
            document.guid.clone(),
            clone_path(&document.deck_path),
            Some(document.question_preview.clone()),
            candidate.score,
        );
        proof {
            assert(hit_views(hits@.push(hit)) =~= hit_views(hits@).push(hit@));
        }
        hits.push(hit);
        j += 1;
    }
    hits
}

/// Every term of a document has an entry in the table of document
/// frequencies: it occurs in at least one document and in no more than
/// there are.
pub proof fn lemma_terms_have_frequency(documents: Seq<DocumentView>, i: int, term: Seq<char>)
    requires
        0 <= i < documents.len(),
        documents[i].term_frequencies.contains_key(term),
    ensures
        document_frequencies(documents).contains_key(term),
        1 <= document_frequencies(documents)[term] <= documents.len(),
{
    lemma_document_frequency(documents, term);
}

/// A term that occurs in every document has the number of documents as its
/// document frequency: the greatest that there is.
pub proof fn lemma_term_in_every_document(documents: Seq<DocumentView>, term: Seq<char>)
    requires
        forall|i: int|
            0 <= i < documents.len() ==> (#[trigger] documents[i]).term_frequencies.contains_key(
                term,
            ),
    ensures
        document_frequency(documents, term) == documents.len(),
    decreases documents.len(),
{
    if documents.len() > 0 {
        let shorter = documents.drop_last();
        assert forall|i: int| 0 <= i < shorter.len() implies (
        #[trigger] shorter[i]).term_frequencies.contains_key(term) by {
            assert(shorter[i] == documents[i]);
        }
        lemma_term_in_every_document(shorter, term);
        assert(documents[documents.len() - 1].term_frequencies.contains_key(term));
    }
}

/// A query none of whose terms occurs in a document has no hit.
pub proof fn lemma_tfidf_unknown_terms(
    query: Set<Seq<char>>,
    documents: Seq<DocumentView>,
    similarities: Seq<u32>,
    top_k: nat,
)
    requires
        forall|term: Seq<char>|
            query.contains(term) ==> !document_frequencies(documents).contains_key(term),
    ensures
        tfidf_hits(query, documents, similarities, top_k) == Seq::<AnswerHitView>::empty(),
{
    let all = Seq::new(
        documents.len(),
        |i: int| tfidf_candidate(query, documents[i], similarities[i], i),
    );
    assert forall|i: int| 0 <= i < all.len() implies !shares_a_token()(#[trigger] all[i]) by {
        assert forall|term: Seq<char>|
            !documents[i].term_frequencies.dom().intersect(query).contains(term) by {
            if documents[i].term_frequencies.contains_key(term) {
                lemma_terms_have_frequency(documents, i, term);
            }
        }
        assert(documents[i].term_frequencies.dom().intersect(query) =~= Set::<Seq<char>>::empty());
    }
    all.lemma_all_neg_filter_empty(shares_a_token());
}

/// With `top_k` zero there is no hit.
pub proof fn lemma_tfidf_top_k_zero(
    query: Set<Seq<char>>,
    documents: Seq<DocumentView>,
    similarities: Seq<u32>,
)
    ensures
        tfidf_hits(query, documents, similarities, 0) == Seq::<AnswerHitView>::empty(),
{
}

/// With `top_k` no smaller than the number of documents, every document
/// that shares a term with the query is a hit.
pub proof fn lemma_tfidf_top_k_large(
    query: Set<Seq<char>>,
    documents: Seq<DocumentView>,
    similarities: Seq<u32>,
    top_k: nat,
)
    requires
        top_k >= documents.len(),
    ensures
        tfidf_hits(query, documents, similarities, top_k).len() == tfidf_candidates(
            query,
            documents,
            similarities,
        ).len(),
        tfidf_hits(query, documents, similarities, top_k) == ranked(
            tfidf_candidates(query, documents, similarities),
        ).map_values(|c: CandidateView| document_hit(documents, c)),
{
    lemma_best_of_all(tfidf_candidates(query, documents, similarities), top_k);
}

/// There are never more hits than `top_k`, and of two hits the earlier one
/// has the score that is not smaller.
pub proof fn lemma_tfidf_hits_ordered(
    query: Set<Seq<char>>,
    documents: Seq<DocumentView>,
    similarities: Seq<u32>,
    top_k: nat,
)
    ensures
        tfidf_hits(query, documents, similarities, top_k).len() <= top_k,
        forall|i: int, j: int|
            0 <= i < j < tfidf_hits(query, documents, similarities, top_k).len() ==> (
            #[trigger] tfidf_hits(query, documents, similarities, top_k)[i]).score >= (
            #[trigger] tfidf_hits(query, documents, similarities, top_k)[j]).score,
{
    let candidates = tfidf_candidates(query, documents, similarities);
    let hits = tfidf_hits(query, documents, similarities, top_k);
    assert forall|i: int, j: int| 0 <= i < j < hits.len() implies (#[trigger] hits[i]).score >= (
    #[trigger] hits[j]).score by {
        lemma_ranked_order(candidates, i, j);
    }
}

/// The ranking stage is repeatable: two runs with the same query tokens,
/// documents, similarities and `top_k` give the same hits in the same order.
pub proof fn lemma_tfidf_is_repeatable(
    query: Set<Seq<char>>,
    documents: Seq<DocumentView>,
    similarities: Seq<u32>,
    top_k: nat,
    first: Seq<AnswerHitView>,
    second: Seq<AnswerHitView>,
)
    requires
        first == tfidf_hits(query, documents, similarities, top_k),
        second == tfidf_hits(query, documents, similarities, top_k),
    ensures
        first == second,
{
}

} // verus!
