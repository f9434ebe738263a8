//! The ranking that both scorers share: candidates are ordered by descending
//! score, then descending overlap, then ascending token count, then ascending
//! identifier; candidates that tie in all four keep the order in which they
//! came. The best `top_k` are returned.

use vstd::prelude::*;
use crate::order::{
    char_lt, first_few, lemma_lex_irreflexive, lemma_lex_total,
    lemma_lex_transitive, text_less, text_lt,
};

verus! {

/// One candidate for ranking: where it stands in the index that was scored,
/// and the four keys by which it is ranked.
#[derive(Debug, Clone)]
pub struct Candidate {
    pub position: usize,
    pub score: u64,
    pub overlap: usize,
    pub token_count: usize,
    pub guid: String,
}

/// What a candidate holds, with its identifier as a text.
pub struct CandidateView {
    pub position: usize,
    pub score: u64,
    pub overlap: usize,
    pub token_count: usize,
    pub guid: Seq<char>,
}

impl View for Candidate {
    type V = CandidateView;

    open spec fn view(&self) -> CandidateView {
        CandidateView {
            position: self.position,
            score: self.score,
            overlap: self.overlap,
            token_count: self.token_count,
            guid: self.guid@,
        }
    }
}

/// The views of a sequence of candidates.
pub open spec fn candidate_views(candidates: Seq<Candidate>) -> Seq<CandidateView> {
    candidates.map_values(|c: Candidate| c@)
}

/// Whether a candidate shares a token with the query.
pub open spec fn shares_a_token() -> spec_fn(CandidateView) -> bool {
    |c: CandidateView| c.overlap >= 1
}

/// Whether `a` must stand before `b`: it has the greater score; or, with
/// equal scores, the greater overlap; or, with those equal too, the smaller
/// token count; or, with all three equal, the smaller identifier.
pub open spec fn outranks(a: CandidateView, b: CandidateView) -> bool {
    if a.score != b.score {
        a.score > b.score
    } else if a.overlap != b.overlap {
        a.overlap > b.overlap
    } else if a.token_count != b.token_count {
        a.token_count < b.token_count
    } else {
        text_lt(a.guid, b.guid)
    }
}

/// `sorted` with `x` put behind every entry that `x` does not outrank.
pub open spec fn insert_ranked(sorted: Seq<CandidateView>, x: CandidateView) -> Seq<CandidateView>
    decreases sorted.len(),
{
    if sorted.len() > 0 && outranks(x, sorted.last()) {
        insert_ranked(sorted.drop_last(), x).push(sorted.last())
    } else {
        sorted.push(x)
    }
}

/// The candidates in ranking order. Candidates of which neither outranks the
/// other stay in the order in which they stand in `s`.
pub open spec fn ranked(s: Seq<CandidateView>) -> Seq<CandidateView>
    decreases s.len(),
{
    if s.len() == 0 {
        Seq::empty()
    } else {
        insert_ranked(ranked(s.drop_last()), s.last())
    }
}

/// The first `top_k` of the ranking, or all of it where it is shorter.
pub open spec fn best(s: Seq<CandidateView>, top_k: nat) -> Seq<CandidateView> {
    first_few(ranked(s), top_k)
}

/// Whether `a` must stand before `b`.
pub fn candidate_outranks(a: &Candidate, b: &Candidate) -> (r: bool)
    ensures
        r == outranks(a@, b@),
{
    if a.score != b.score {
        a.score > b.score
    } else if a.overlap != b.overlap {
        a.overlap > b.overlap
    } else if a.token_count != b.token_count {
        a.token_count < b.token_count
    } else {
        text_less(a.guid.as_str(), b.guid.as_str())
    }
}

/// Putting a candidate into a ranking makes it longer by one.
pub proof fn lemma_insert_ranked_len(sorted: Seq<CandidateView>, x: CandidateView)
    ensures
        insert_ranked(sorted, x).len() == sorted.len() + 1,
    decreases sorted.len(),
{
    if sorted.len() > 0 && outranks(x, sorted.last()) {
        lemma_insert_ranked_len(sorted.drop_last(), x);
    }
}

/// A ranking is as long as the sequence that it ranks.
pub proof fn lemma_ranked_len(s: Seq<CandidateView>)
    ensures
        ranked(s).len() == s.len(),
    decreases s.len(),
{
    if s.len() > 0 {
        lemma_ranked_len(s.drop_last());
        lemma_insert_ranked_len(ranked(s.drop_last()), s.last());
    }
}

/// Where the entries of `sorted` from `j` on are all outranked by `x`, and
/// the one before them is not, `x` goes to place `j`.
proof fn lemma_insert_at(sorted: Seq<CandidateView>, x: CandidateView, j: int)
    requires
        0 <= j <= sorted.len(),
        forall|k: int| j <= k < sorted.len() ==> outranks(x, #[trigger] sorted[k]),
        j == 0 || !outranks(x, sorted[j - 1]),
    ensures
        insert_ranked(sorted, x) == sorted.insert(j, x),
    decreases sorted.len() - j,
{
    if j < sorted.len() {
        let shorter = sorted.drop_last();
        lemma_insert_at(shorter, x, j);
    }
}

/// Puts `x` into `sorted` behind every entry that it does not outrank.
fn insert_candidate(sorted: &mut Vec<Candidate>, x: Candidate)
    ensures
        candidate_views(final(sorted)@) == insert_ranked(candidate_views(old(sorted)@), x@),
{
    let ghost before = candidate_views(sorted@);
    let mut j: usize = sorted.len();
    while j > 0 && candidate_outranks(&x, &sorted[j - 1])
        invariant
            j <= sorted.len(),
            before == candidate_views(sorted@),
            forall|k: int| j <= k < before.len() ==> outranks(x@, #[trigger] before[k]),
        decreases j,
    {
        j -= 1;
    }
    proof {
        lemma_insert_at(before, x@, j as int);
    }
    sorted.insert(j, x);
}

/// Ranks `candidates` and keeps the best `top_k`.
pub fn rank(candidates: Vec<Candidate>, top_k: usize) -> (chosen: Vec<Candidate>)
    ensures
        candidate_views(chosen@) == best(candidate_views(candidates@), top_k as nat),
{
    let ghost all = candidate_views(candidates@);
    let mut chosen: Vec<Candidate> = Vec::new();
    for x in it: candidates
        invariant
            all == candidate_views(it.seq()),
            candidate_views(chosen@) == best(all.take(it.index() as int), top_k as nat),
    {
        proof {
            let i = it.index() as int;
            assert(all.take(i + 1) =~= all.take(i).push(x@));
            lemma_best_of_one_more(all.take(i), x@, top_k as nat);
        }
        // A candidate that does not outrank the last of a full list is not among
        // the best: it is left out.
        let full = chosen.len() == top_k;
        let left_out = full && (top_k == 0 || !candidate_outranks(&x, &chosen[top_k - 1]));
        if !left_out {
            proof {
                lemma_insert_ranked_len(candidate_views(chosen@), x@);
            }
            insert_candidate(&mut chosen, x);
            if full {
                chosen.truncate(top_k);
            }
        }
    }
    proof {
        assert(all.take(all.len() as int) =~= all);
    }
    chosen
}

/// No candidate outranks itself, and of two candidates at most one outranks
/// the other.
pub proof fn lemma_outranks_asymmetric(a: CandidateView, b: CandidateView)
    ensures
        !outranks(a, a),
        outranks(a, b) ==> !outranks(b, a),
{
    lemma_lex_irreflexive(char_lt(), a.guid);
    if outranks(a, b) && outranks(b, a) {
        lemma_lex_transitive(char_lt(), a.guid, b.guid, a.guid);
    }
}

/// Outranking is transitive.
pub proof fn lemma_outranks_transitive(a: CandidateView, b: CandidateView, c: CandidateView)
    requires
        outranks(a, b),
        outranks(b, c),
    ensures
        outranks(a, c),
{
    if a.score == b.score && b.score == c.score && a.overlap == b.overlap && b.overlap
        == c.overlap && a.token_count == b.token_count && b.token_count == c.token_count {
        lemma_lex_transitive(char_lt(), a.guid, b.guid, c.guid);
    }
}

/// Two candidates of which neither outranks the other agree in all four keys.
pub proof fn lemma_tie_means_equal_keys(a: CandidateView, b: CandidateView)
    requires
        !outranks(a, b),
        !outranks(b, a),
    ensures
        a.score == b.score,
        a.overlap == b.overlap,
        a.token_count == b.token_count,
        a.guid == b.guid,
{
    if a.guid != b.guid {
        lemma_lex_total(char_lt(), a.guid, b.guid);
    }
}

/// Where `x` outranks `a`, any `b` is outranked by `x` or outranks `a`.
proof fn lemma_outranks_between(x: CandidateView, a: CandidateView, b: CandidateView)
    requires
        outranks(x, a),
    ensures
        outranks(x, b) || outranks(b, a),
{
    if !outranks(x, b) {
        if outranks(b, x) {
            lemma_outranks_transitive(b, x, a);
        } else {
            lemma_tie_means_equal_keys(x, b);
        }
    }
}

/// No entry is outranked by one that stands behind it.
pub open spec fn in_rank_order(s: Seq<CandidateView>) -> bool {
    forall|i: int, j: int| 0 <= i < j < s.len() ==> !outranks(#[trigger] s[j], #[trigger] s[i])
}

/// Entries that tie stand in the order of their positions.
pub open spec fn ties_by_position(s: Seq<CandidateView>) -> bool {
    forall|i: int, j: int|
        0 <= i < j < s.len() && !outranks(#[trigger] s[i], #[trigger] s[j]) ==> s[i].position
            < s[j].position
}

/// Each entry stands at a greater position than the one before it.
pub open spec fn positions_increase(s: Seq<CandidateView>) -> bool {
    forall|i: int, j: int|
        0 <= i < j < s.len() ==> (#[trigger] s[i]).position < (#[trigger] s[j]).position
}

/// The place at which `insert_ranked` puts `x`.
proof fn lemma_insert_place(sorted: Seq<CandidateView>, x: CandidateView) -> (j: int)
    ensures
        0 <= j <= sorted.len(),
        insert_ranked(sorted, x) == sorted.insert(j, x),
        forall|k: int| j <= k < sorted.len() ==> outranks(x, #[trigger] sorted[k]),
        j == 0 || !outranks(x, sorted[j - 1]),
    decreases sorted.len(),
{
    if sorted.len() > 0 && outranks(x, sorted.last()) {
        let j = lemma_insert_place(sorted.drop_last(), x);
        assert forall|k: int| j <= k < sorted.len() implies outranks(x, #[trigger] sorted[k]) by {
            if k < sorted.len() - 1 {
                assert(sorted[k] == sorted.drop_last()[k]);
            }
        }
        j
    } else {
        sorted.len() as int
    }
}

/// The ranking holds the candidates that it was given, each as often as it
/// was given.
pub proof fn lemma_ranked_is_permutation(s: Seq<CandidateView>)
    ensures
        ranked(s).to_multiset() == s.to_multiset(),
        ranked(s).len() == s.len(),
    decreases s.len(),
{
    broadcast use vstd::seq_lib::group_to_multiset_ensures;

    if s.len() > 0 {
        let shorter = s.drop_last();
        lemma_ranked_is_permutation(shorter);
        lemma_insert_place(ranked(shorter), s.last());
        assert(shorter.push(s.last()) =~= s);
    }
}

/// Each entry of the ranking is one of the candidates.
pub proof fn lemma_ranked_members(s: Seq<CandidateView>, i: int) -> (k: int)
    requires
        0 <= i < ranked(s).len(),
    ensures
        0 <= k < s.len(),
        s[k] == ranked(s)[i],
    decreases s.len(),
{
    let shorter = s.drop_last();
    let j = lemma_insert_place(ranked(shorter), s.last());
    if i == j {
        s.len() - 1
    } else if i < j {
        lemma_ranked_members(shorter, i)
    } else {
        lemma_ranked_members(shorter, i - 1)
    }
}

/// In the ranking no entry is outranked by one that stands behind it.
pub proof fn lemma_ranked_is_sorted(s: Seq<CandidateView>)
    ensures
        in_rank_order(ranked(s)),
    decreases s.len(),
{
    if s.len() > 0 {
        let shorter = s.drop_last();
        let sorted = ranked(shorter);
        let x = s.last();
        lemma_ranked_is_sorted(shorter);
        let j = lemma_insert_place(sorted, x);
        let r = sorted.insert(j, x);
        assert forall|a: int, b: int| 0 <= a < b < r.len() implies !outranks(
            #[trigger] r[b],
            #[trigger] r[a],
        ) by {
            if b == j {
                // `r[a]` stands before `x`.
                if outranks(x, sorted[a]) {
                    lemma_outranks_between(x, sorted[a], sorted[j - 1]);
                }
            } else if a == j {
                lemma_outranks_asymmetric(x, sorted[b - 1]);
            }
        }
    }
}

/// The best of one candidate more: the new candidate put among the best so
/// far, and the best `top_k` of these.
pub proof fn lemma_best_of_one_more(s: Seq<CandidateView>, x: CandidateView, top_k: nat)
    ensures
        best(s.push(x), top_k) == first_few(insert_ranked(best(s, top_k), x), top_k),
{
    let r = ranked(s);
    let k = top_k as int;
    assert(s.push(x).drop_last() =~= s);
    if r.len() > top_k {
        let t = r.take(k);
        lemma_ranked_is_sorted(s);
        let j = lemma_insert_place(r, x);
        if j <= k {
            lemma_insert_at(t, x, j);
        } else if k > 0 && outranks(x, r[k - 1]) {
            lemma_outranks_between(x, r[k - 1], r[j - 1]);
        }
    }
}

/// Where the candidates come in the order of their positions, those that tie
/// in all four keys stay in that order.
pub proof fn lemma_ranked_is_stable(s: Seq<CandidateView>)
    requires
        positions_increase(s),
    ensures
        ties_by_position(ranked(s)),
    decreases s.len(),
{
    if s.len() > 0 {
        let shorter = s.drop_last();
        let sorted = ranked(shorter);
        let x = s.last();
        lemma_ranked_is_stable(shorter);
        let j = lemma_insert_place(sorted, x);
        let r = sorted.insert(j, x);
        assert forall|a: int, b: int|
            0 <= a < b < r.len() && !outranks(#[trigger] r[a], #[trigger] r[b]) implies r[a].position
            < r[b].position by {
            if b == j {
                // What stands before `x` came before it.
                lemma_ranked_members(shorter, a);
            }
        }
    }
}

/// The order of any two entries of the ranking, key by key: the earlier one
/// has the greater score; with equal scores, the greater overlap; with those
/// equal too, the smaller token count; with all three equal, an identifier
/// that is not the greater one.
pub proof fn lemma_ranked_order(s: Seq<CandidateView>, i: int, j: int)
    requires
        0 <= i < j < ranked(s).len(),
    ensures
        ranked(s)[i].score >= ranked(s)[j].score,
        ranked(s)[i].score == ranked(s)[j].score ==> ranked(s)[i].overlap >= ranked(s)[j].overlap,
        ranked(s)[i].score == ranked(s)[j].score && ranked(s)[i].overlap == ranked(s)[j].overlap
            ==> ranked(s)[i].token_count <= ranked(s)[j].token_count,
        ranked(s)[i].score == ranked(s)[j].score && ranked(s)[i].overlap == ranked(s)[j].overlap
            && ranked(s)[i].token_count == ranked(s)[j].token_count ==> !text_lt(
            ranked(s)[j].guid,
            ranked(s)[i].guid,
        ),
{
    lemma_ranked_is_sorted(s);
}

/// With `top_k` zero nothing is returned.
pub proof fn lemma_best_of_zero(s: Seq<CandidateView>)
    ensures
        best(s, 0) == Seq::<CandidateView>::empty(),
{
}

/// With `top_k` no smaller than the number of candidates all of them are
/// returned.
pub proof fn lemma_best_of_all(s: Seq<CandidateView>, top_k: nat)
    requires
        top_k >= s.len(),
    ensures
        best(s, top_k) == ranked(s),
        best(s, top_k).len() == s.len(),
        best(s, top_k).to_multiset() == s.to_multiset(),
{
    lemma_ranked_is_permutation(s);
}

/// The number of candidates returned: `top_k`, or all where there are fewer.
pub proof fn lemma_best_len(s: Seq<CandidateView>, top_k: nat)
    ensures
        best(s, top_k).len() == if top_k < s.len() {
            top_k
        } else {
            s.len()
        },
{
    lemma_ranked_len(s);
}

/// Each of the best is one of the candidates.
pub proof fn lemma_best_members(s: Seq<CandidateView>, top_k: nat, i: int) -> (k: int)
    requires
        0 <= i < best(s, top_k).len(),
    ensures
        0 <= k < s.len(),
        s[k] == best(s, top_k)[i],
{
    lemma_ranked_members(s, i)
}

/// Ranking is repeatable: two rankings of the same candidates with the same
/// `top_k` are the same, entry by entry.
pub proof fn lemma_rank_is_repeatable(
    s: Seq<CandidateView>,
    top_k: nat,
    first: Seq<CandidateView>,
    second: Seq<CandidateView>,
)
    requires
        first == best(s, top_k),
        second == best(s, top_k),
    ensures
        first == second,
{
}

} // verus!
