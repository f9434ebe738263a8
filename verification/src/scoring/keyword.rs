//! Keyword-overlap scoring: a card's score is the number of distinct tokens
//! that its question shares with the query.

use vstd::prelude::*;
use crate::config::ParserConfig;
use crate::data_model::{clone_path, hit_views, make_hit, AnswerHit, AnswerHitView, Card, CardView};
use crate::ranking::{
    best, candidate_views, lemma_best_members, lemma_best_of_all,
    lemma_ranked_order, rank, ranked, shares_a_token,
    Candidate, CandidateView,
};
use crate::text::texts;
use crate::token_set::TokenSet;
use crate::tokenise::{tokenise, tokenise_to_set, tokens_of};

verus! {

/// A card prepared for keyword scoring: the set of its question's tokens,
/// their number, and what a hit shows of the card.
#[derive(Debug, Clone)]
pub struct PreparedQuestion {
    pub guid: String,
    pub deck_path: Vec<String>,
    pub question_preview: String,
    pub token_set: TokenSet,
    pub token_count: usize,
}

/// What a prepared question holds, as texts and a set of texts.
pub struct PreparedQuestionView {
    pub guid: Seq<char>,
    pub deck_path: Seq<Seq<char>>,
    pub question_preview: Seq<char>,
    pub token_set: Set<Seq<char>>,
    pub token_count: nat,
}

impl View for PreparedQuestion {
    type V = PreparedQuestionView;

    open spec fn view(&self) -> PreparedQuestionView {
        PreparedQuestionView {
            guid: self.guid@,
            deck_path: texts(self.deck_path@),
            question_preview: self.question_preview@,
            token_set: self.token_set@,
            token_count: self.token_count as nat,
        }
    }
}

/// The views of a sequence of prepared questions.
pub open spec fn prepared_views(index: Seq<PreparedQuestion>) -> Seq<PreparedQuestionView> {
    index.map_values(|p: PreparedQuestion| p@)
}

/// The prepared form of one card.
pub open spec fn prepared_of(
    card: CardView,
    stopwords: Set<Seq<char>>,
    min_length: nat,
    remove_stopwords: bool,
) -> PreparedQuestionView {
    let tokens = tokens_of(card.question_text, stopwords, min_length, remove_stopwords);
    PreparedQuestionView {
        guid: card.guid,
        deck_path: card.deck_path,
        question_preview: card.question_text,
        token_set: tokens.to_set(),
        token_count: tokens.len(),
    }
}

/// The number of tokens that a query shares with a prepared question.
pub open spec fn overlap(query: Set<Seq<char>>, tokens: Set<Seq<char>>) -> nat {
    query.intersect(tokens).len()
}

/// The candidate that the question at `position` gives: its score is its
/// overlap with the query.
pub open spec fn keyword_candidate(
    query: Set<Seq<char>>,
    question: PreparedQuestionView,
    position: int,
) -> CandidateView {
    CandidateView {
        position: position as usize,
        score: overlap(query, question.token_set) as u64,
        overlap: overlap(query, question.token_set) as usize,
        token_count: question.token_count as usize,
        guid: question.guid,
    }
}

/// The candidates of a query: one for each question that shares a token with
/// it, in the order of the index.
pub open spec fn keyword_candidates(
    query: Set<Seq<char>>,
    index: Seq<PreparedQuestionView>,
) -> Seq<CandidateView> {
    Seq::new(index.len(), |i: int| keyword_candidate(query, index[i], i)).filter(shares_a_token())
}

/// The hit that is shown for the question that a candidate stands for.
pub open spec fn keyword_hit(index: Seq<PreparedQuestionView>, c: CandidateView) -> AnswerHitView {
    AnswerHitView {
        guid: index[c.position as int].guid,
        score: c.score,
        question_preview: Some(index[c.position as int].question_preview),
        deck_path: index[c.position as int].deck_path,
    }
}

/// The hits of a query: its candidates, ranked, the best `top_k` of them.
pub open spec fn keyword_hits(
    query: Set<Seq<char>>,
    index: Seq<PreparedQuestionView>,
    top_k: nat,
) -> Seq<AnswerHitView> {
    best(keyword_candidates(query, index), top_k).map_values(
        |c: CandidateView| keyword_hit(index, c),
    )
}

/// Prepares each card for keyword scoring.
pub fn prepare_keyword_index(
    candidate_cards: &[Card],
    stopword_set: &TokenSet,
    parser_config: &ParserConfig,
) -> (prepared: Vec<PreparedQuestion>)
    ensures
        prepared.len() == candidate_cards.len(),
        forall|i: int|
            0 <= i < prepared.len() ==> (#[trigger] prepared[i])@ == prepared_of(
                candidate_cards[i]@,
                stopword_set@,
                parser_config.min_token_length as nat,
                parser_config.remove_stopwords,
            ),
{
    let mut prepared: Vec<PreparedQuestion> = Vec::new();
    let mut i: usize = 0;
    while i < candidate_cards.len()
        invariant
            i <= candidate_cards.len(),
            prepared.len() == i,
            forall|k: int|
                0 <= k < i ==> (#[trigger] prepared[k])@ == prepared_of(
                    candidate_cards[k]@,
                    stopword_set@,
                    parser_config.min_token_length as nat,
                    parser_config.remove_stopwords,
                ),
        decreases candidate_cards.len() - i,
    {
        let card = &candidate_cards[i];
        let token_vector = tokenise(card.question_text.as_str(), stopword_set, parser_config);
        let token_set = TokenSet::from_tokens(&token_vector);
        let question = PreparedQuestion {
            guid: card.guid.clone(),
            deck_path: clone_path(&card.deck_path),
            question_preview: card.question_text.clone(),
            token_set,
            token_count: token_vector.len(),
        };
        prepared.push(question);
        i += 1;
    }
    prepared
}

/// Each of the best candidates of a query stands for the question at its
/// position, which lies within the index.
pub proof fn lemma_keyword_best_in_index(
    query: Set<Seq<char>>,
    index: Seq<PreparedQuestionView>,
    top_k: nat,
    i: int,
)
    requires
        0 <= i < best(keyword_candidates(query, index), top_k).len(),
        index.len() <= usize::MAX,
    ensures
        0 <= best(keyword_candidates(query, index), top_k)[i].position < index.len(),
        best(keyword_candidates(query, index), top_k)[i] == keyword_candidate(
            query,
            index[best(keyword_candidates(query, index), top_k)[i].position as int],
            best(keyword_candidates(query, index), top_k)[i].position as int,
        ),
        best(keyword_candidates(query, index), top_k)[i].overlap >= 1,
{
    let all = Seq::new(index.len(), |i: int| keyword_candidate(query, index[i], i));
    let candidates = keyword_candidates(query, index);
    let c = best(candidates, top_k)[i];
    lemma_best_members(candidates, top_k, i);
    all.lemma_filter_contains_rev(shares_a_token(), c);
}

/// Ranks the prepared questions against a query: each question that shares a
/// token with the query is a hit, with the number of shared tokens as its
/// score; the best `top_k` hits are returned, best first.
pub fn score_keyword_overlap(
    query_text: &str,
    prepared_index: &[PreparedQuestion],
    stopword_set: &TokenSet,
    parser_config: &ParserConfig,
    top_k: usize,
) -> (hits: Vec<AnswerHit>)
    ensures
        hit_views(hits@) == keyword_hits(
            tokens_of(
                query_text@,
                stopword_set@,
                parser_config.min_token_length as nat,
                parser_config.remove_stopwords,
            ).to_set(),
            prepared_views(prepared_index@),
            top_k as nat,
        ),
{
    let query_token_set = tokenise_to_set(query_text, stopword_set, parser_config);
    let ghost query = query_token_set@;
    let ghost index = prepared_views(prepared_index@);
    let ghost all = Seq::new(index.len(), |i: int| keyword_candidate(query, index[i], i));
    let mut candidates: Vec<Candidate> = Vec::new();
    let mut i: usize = 0;
    while i < prepared_index.len()
        invariant
            i <= prepared_index.len(),
            query == query_token_set@,
            index == prepared_views(prepared_index@),
            all == Seq::new(index.len(), |i: int| keyword_candidate(query, index[i], i)),
            candidate_views(candidates@) == all.take(i as int).filter(shares_a_token()),
        decreases prepared_index.len() - i,
    {
        let question = &prepared_index[i];
        let overlap_count = query_token_set.overlap(&question.token_set);
        proof {
            assert(all.take(i + 1) =~= all.take(i as int).push(all[i as int]));
            all.take(i as int).lemma_filter_push(all[i as int], shares_a_token());
        }
        if overlap_count > 0 {
            let candidate = Candidate {
                position: i,
                score: overlap_count as u64,
                overlap: overlap_count,
                token_count: question.token_count,
                guid: question.guid.clone(),
            };
            candidates.push(candidate);
        }
        i += 1;
    }
    proof {
        assert(all.take(prepared_index.len() as int) =~= all);
    }
    let chosen = rank(candidates, top_k);
    let index_len = prepared_index.len();
    let ghost chosen_views = candidate_views(chosen@);
    let ghost to_hit = |c: CandidateView| keyword_hit(index, c);
    let mut hits: Vec<AnswerHit> = Vec::new();
    let mut j: usize = 0;
    while j < chosen.len()
        invariant
            j <= chosen.len(),
            index == prepared_views(prepared_index@),
            index.len() == index_len,
            chosen_views == candidate_views(chosen@),
            chosen_views == best(keyword_candidates(query, index), top_k as nat),
            to_hit == |c: CandidateView| keyword_hit(index, c),
            hit_views(hits@) == chosen_views.take(j as int).map_values(to_hit),
        decreases chosen.len() - j,
    {
        let candidate = &chosen[j];
        proof {
            lemma_keyword_best_in_index(query, index, top_k as nat, j as int);
        }
        let question = &prepared_index[candidate.position];
        let hit = make_hit(
            question.guid.clone(),
            clone_path(&question.deck_path),
            Some(question.question_preview.clone()),
            candidate.score,
        );
        proof {
            assert(hit_views(hits@.push(hit)) =~= hit_views(hits@).push(hit@));
        }
        hits.push(hit);
        j += 1;
    }
    hits
}

/// A query that shares no token with any question has no hit.
pub proof fn lemma_keyword_no_shared_token(
    query: Set<Seq<char>>,
    index: Seq<PreparedQuestionView>,
    top_k: nat,
)
    requires
        forall|i: int| 0 <= i < index.len() ==> query.disjoint((#[trigger] index[i]).token_set),
    ensures
        keyword_hits(query, index, top_k) == Seq::<AnswerHitView>::empty(),
{
    let all = Seq::new(index.len(), |i: int| keyword_candidate(query, index[i], i));
    assert forall|i: int| 0 <= i < all.len() implies !shares_a_token()(#[trigger] all[i]) by {
        assert(query.intersect(index[i].token_set) =~= Set::<Seq<char>>::empty());
    }
    all.lemma_all_neg_filter_empty(shares_a_token());
}

/// With `top_k` zero there is no hit.
pub proof fn lemma_keyword_top_k_zero(query: Set<Seq<char>>, index: Seq<PreparedQuestionView>)
    ensures
        keyword_hits(query, index, 0) == Seq::<AnswerHitView>::empty(),
{
}

/// With `top_k` no smaller than the number of questions, every question that
/// shares a token with the query is a hit.
pub proof fn lemma_keyword_top_k_large(
    query: Set<Seq<char>>,
    index: Seq<PreparedQuestionView>,
    top_k: nat,
)
    requires
        top_k >= index.len(),
    ensures
        keyword_hits(query, index, top_k).len() == keyword_candidates(query, index).len(),
        keyword_hits(query, index, top_k) == ranked(keyword_candidates(query, index)).map_values(
            |c: CandidateView| keyword_hit(index, c),
        ),
{
    lemma_best_of_all(keyword_candidates(query, index), top_k);
}

/// There are never more hits than `top_k`, and of two hits the earlier one
/// has the score that is not smaller.
pub proof fn lemma_keyword_hits_ordered(
    query: Set<Seq<char>>,
    index: Seq<PreparedQuestionView>,
    top_k: nat,
)
    ensures
        keyword_hits(query, index, top_k).len() <= top_k,
        forall|i: int, j: int|
            0 <= i < j < keyword_hits(query, index, top_k).len() ==> (#[trigger] keyword_hits(
                query,
                index,
                top_k,
            )[i]).score >= (#[trigger] keyword_hits(query, index, top_k)[j]).score,
{
    let candidates = keyword_candidates(query, index);
    let hits = keyword_hits(query, index, top_k);
    assert forall|i: int, j: int| 0 <= i < j < hits.len() implies (#[trigger] hits[i]).score >= (
    #[trigger] hits[j]).score by {
        lemma_ranked_order(candidates, i, j);
    }
}

/// Keyword scoring is repeatable: two runs with the same query tokens, the
/// same prepared questions and the same `top_k` give the same hits in the
/// same order.
pub proof fn lemma_keyword_is_repeatable(
    query: Set<Seq<char>>,
    index: Seq<PreparedQuestionView>,
    top_k: nat,
    first: Seq<AnswerHitView>,
    second: Seq<AnswerHitView>,
)
    requires
        first == keyword_hits(query, index, top_k),
        second == keyword_hits(query, index, top_k),
    ensures
        first == second,
{
}

} // verus!
