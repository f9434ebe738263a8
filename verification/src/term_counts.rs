//! A table from terms to counts, kept as a list in which no term occurs
//! twice and no count is zero.

use vstd::prelude::*;
use crate::text::texts;
use crate::token_set::TokenSet;

verus! {

/// How often `term` occurs in `tokens`.
pub open spec fn occurrences(tokens: Seq<Seq<char>>, term: Seq<char>) -> nat
    decreases tokens.len(),
{
    if tokens.len() == 0 {
        0
    } else if tokens.last() == term {
        occurrences(tokens.drop_last(), term) + 1
    } else {
        occurrences(tokens.drop_last(), term)
    }
}

/// The term counts of a token sequence: each token that occurs, with the
/// number of its occurrences.
pub open spec fn term_counts(tokens: Seq<Seq<char>>) -> Map<Seq<char>, nat> {
    Map::new(|term: Seq<char>| tokens.contains(term), |term: Seq<char>| occurrences(tokens, term))
}

/// A token occurs at least once exactly if the sequence holds it, and never
/// more often than the sequence is long.
pub proof fn lemma_occurrences(tokens: Seq<Seq<char>>, term: Seq<char>)
    ensures
        occurrences(tokens, term) > 0 <==> tokens.contains(term),
        occurrences(tokens, term) <= tokens.len(),
    decreases tokens.len(),
{
    if tokens.len() > 0 {
        let shorter = tokens.drop_last();
        lemma_occurrences(shorter, term);
        if tokens.contains(term) {
            let k = choose|k: int| 0 <= k < tokens.len() && tokens[k] == term;
            if k < tokens.len() - 1 {
                assert(shorter[k] == term);
            }
        }
        if shorter.contains(term) {
            let k = choose|k: int| 0 <= k < shorter.len() && shorter[k] == term;
            assert(tokens[k] == term);
        }
        if tokens.last() == term {
            assert(tokens[tokens.len() - 1] == term);
        }
    }
}

/// A table of document frequencies after one more document: each of the
/// document's terms is counted once more.
pub open spec fn with_document(table: Map<Seq<char>, nat>, terms: Set<Seq<char>>) -> Map<
    Seq<char>,
    nat,
> {
    Map::new(
        |term: Seq<char>| table.contains_key(term) || terms.contains(term),
        |term: Seq<char>|
            if table.contains_key(term) && terms.contains(term) {
                table[term] + 1
            } else if table.contains_key(term) {
                table[term]
            } else {
                1
            },
    )
}

/// One term with its count.
#[derive(Debug, Clone)]
pub struct TermCount {
    pub term: String,
    pub count: usize,
}

/// A finite table from terms to positive counts.
#[derive(Debug)]
pub struct TermCounts {
    entries: Vec<TermCount>,
}

/// The terms of a list of entries.
pub open spec fn entry_terms(entries: Seq<TermCount>) -> Seq<Seq<char>> {
    entries.map_values(|e: TermCount| e.term@)
}

impl View for TermCounts {
    type V = Map<Seq<char>, nat>;

    closed spec fn view(&self) -> Map<Seq<char>, nat> {
        Map::new(
            |term: Seq<char>| entry_terms(self.entries@).contains(term),
            |term: Seq<char>| self.entries@[entry_terms(self.entries@).index_of(term)].count as nat,
        )
    }
}

impl Clone for TermCounts {
    fn clone(&self) -> (copy: TermCounts)
        ensures
            copy@ == self@,
    {
        proof {
            use_type_invariant(self);
        }
        let mut entries: Vec<TermCount> = Vec::new();
        let mut e: usize = 0;
        while e < self.entries.len()
            invariant
                e <= self.entries.len(),
                entries@ == self.entries@.take(e as int),
            decreases self.entries.len() - e,
        {
            let entry = TermCount { term: self.entries[e].term.clone(), count: self.entries[e].count };
            entries.push(entry);
            e += 1;
        }
        assert(self.entries@.take(self.entries.len() as int) =~= self.entries@);
        TermCounts { entries }
    }
}

/// The table that a list of entries with distinct terms stands for.
pub open spec fn table_of(entries: Seq<TermCount>) -> Map<Seq<char>, nat> {
    Map::new(
        |term: Seq<char>| entry_terms(entries).contains(term),
        |term: Seq<char>| entries[entry_terms(entries).index_of(term)].count as nat,
    )
}

impl TermCounts {
    #[verifier::type_invariant]
    spec fn well_formed(&self) -> bool {
        &&& entry_terms(self.entries@).no_duplicates()
        &&& forall|e: int| 0 <= e < self.entries.len() ==> (#[trigger] self.entries@[e]).count >= 1
    }

    /// The empty table.
    pub fn new() -> (table: TermCounts)
        ensures
            table@ == Map::<Seq<char>, nat>::empty(),
    {
        TermCounts { entries: Vec::new() }
    }

    /// The entries of the table: each term once, with its count, which is
    /// not zero.
    pub fn entries(&self) -> (entries: &Vec<TermCount>)
        ensures
            entry_terms(entries@).no_duplicates(),
            forall|e: int| 0 <= e < entries.len() ==> (#[trigger] entries@[e]).count >= 1,
            self@ == table_of(entries@),
    {
        proof {
            use_type_invariant(self);
        }
        &self.entries
    }

    /// The number of terms in the table.
    pub fn len(&self) -> (n: usize)
        ensures
            self@.dom().finite(),
            n == self@.dom().len(),
    {
        proof {
            use_type_invariant(self);
            let terms = entry_terms(self.entries@);
            terms.unique_seq_to_set();
        }
        self.entries.len()
    }

    /// The count of `term`; zero where the table does not hold it.
    pub fn count_of(&self, term: &String) -> (count: usize)
        ensures
            self@.contains_key(term@) ==> count == self@[term@] && count >= 1,
            !self@.contains_key(term@) ==> count == 0,
    {
        proof {
            use_type_invariant(self);
        }
        let ghost terms = entry_terms(self.entries@);
        let mut e: usize = 0;
        while e < self.entries.len()
            invariant
                e <= self.entries.len(),
                terms == entry_terms(self.entries@),
                terms.no_duplicates(),
                forall|k: int| 0 <= k < self.entries.len() ==> (#[trigger] self.entries@[k]).count >= 1,
                forall|k: int| 0 <= k < e ==> terms[k] != term@,
            decreases self.entries.len() - e,
        {
            if self.entries[e].term == *term {
                proof {
                    assert(terms[e as int] == term@);
                }
                return self.entries[e].count;
            }
            e += 1;
        }
        0
    }

    /// The number of terms of the table that are members of `tokens`.
    pub fn shared_terms(&self, tokens: &TokenSet) -> (shared: usize)
        ensures
            self@.dom().intersect(tokens@).finite(),
            shared == self@.dom().intersect(tokens@).len(),
    {
        proof {
            use_type_invariant(self);
        }
        let ghost terms = entry_terms(self.entries@);
        let mut shared: usize = 0;
        let mut e: usize = 0;
        proof {
            assert(terms.take(0).to_set().intersect(tokens@) =~= Set::<Seq<char>>::empty());
        }
        while e < self.entries.len()
            invariant
                e <= self.entries.len(),
                terms == entry_terms(self.entries@),
                terms.no_duplicates(),
                shared <= e,
                terms.take(e as int).to_set().intersect(tokens@).finite(),
                shared == terms.take(e as int).to_set().intersect(tokens@).len(),
            decreases self.entries.len() - e,
        {
            let present = tokens.contains(&self.entries[e].term);
            proof {
                let seen = terms.take(e as int);
                let term = terms[e as int];
                assert(terms.take(e + 1) =~= seen.push(term));
                seen.lemma_push_to_set_commute(term);
                if present {
                    assert(seen.to_set().insert(term).intersect(tokens@) =~= seen.to_set().intersect(
                        tokens@,
                    ).insert(term));
                } else {
                    assert(seen.to_set().insert(term).intersect(tokens@) =~= seen.to_set().intersect(
                        tokens@,
                    ));
                }
            }
            if present {
                shared += 1;
            }
            e += 1;
        }
        assert(terms.take(self.entries.len() as int) =~= terms);
        shared
    }

    /// Counts each term of `document` once more.
    pub fn count_document(&mut self, document: &TermCounts)
        requires
            forall|term: Seq<char>|
                old(self)@.contains_key(term) ==> #[trigger] old(self)@[term] < usize::MAX,
        ensures
            final(self)@ == with_document(old(self)@, document@.dom()),
    {
        proof {
            use_type_invariant(&*self);
            use_type_invariant(document);
        }
        let ghost start = self@;
        let ghost terms = entry_terms(document.entries@);
        let mut entries: Vec<TermCount> = Vec::new();
        std::mem::swap(&mut self.entries, &mut entries);
        let ghost first = entries@;
        let mut k: usize = 0;
        proof {
            assert forall|e: int| 0 <= e < entries.len() implies (#[trigger] entries@[e]).count
                < usize::MAX by {
                let term = entry_terms(first)[e];
                assert(start[term] == first[e].count);
            }
        }
        while k < document.entries.len()
            invariant
                k <= document.entries.len(),
                terms == entry_terms(document.entries@),
                terms.no_duplicates(),
                self.entries@ == Seq::<TermCount>::empty(),
                entry_terms(entries@).no_duplicates(),
                forall|e: int| 0 <= e < entries.len() ==> (#[trigger] entries@[e]).count >= 1,
                forall|e: int|
                    0 <= e < entries.len() ==> (#[trigger] entries@[e]).count < usize::MAX
                        || terms.take(k as int).contains(entries@[e].term@),
                table_of(entries@) == with_document(start, terms.take(k as int).to_set()),
            decreases document.entries.len() - k,
        {
            let ghost seen = terms.take(k as int);
            let ghost term = terms[k as int];
            proof {
                assert(terms.take(k + 1) =~= seen.push(term));
                seen.lemma_push_to_set_commute(term);
            }
            add_one(&mut entries, document.entries[k].term.clone());
            proof {
                assert forall|e: int| 0 <= e < entries.len() implies (#[trigger] entries@[e]).count
                    >= 1 && (entries@[e].count < usize::MAX || seen.push(term).contains(
                    entries@[e].term@,
                )) by {
                    let t = entry_terms(entries@)[e];
                    assert(table_of(entries@)[t] == entries@[e].count);
                    if t == term {
                        assert(seen.push(term)[seen.len() as int] == term);
                    } else {
                        assert(table_of(entries@).contains_key(t));
                    }
                }
            }
            k += 1;
        }
        proof {
            assert(terms.take(document.entries.len() as int) =~= terms);
        }
        std::mem::swap(&mut self.entries, &mut entries);
    }

    /// The term counts of `tokens`.
    pub fn tally(tokens: &Vec<String>) -> (table: TermCounts)
        ensures
            table@ == term_counts(texts(tokens@)),
    {
        let ghost all = texts(tokens@);
        let mut entries: Vec<TermCount> = Vec::new();
        let mut i: usize = 0;
        while i < tokens.len()
            invariant
                i <= tokens.len(),
                all == texts(tokens@),
                entry_terms(entries@).no_duplicates(),
                forall|e: int| 0 <= e < entries.len() ==> 1 <= (#[trigger] entries@[e]).count <= i,
                table_of(entries@) == term_counts(all.take(i as int)),
            decreases tokens.len() - i,
        {
            let ghost before = entries@;
            let ghost token = all[i as int];
            add_one(&mut entries, tokens[i].clone());
            proof {
                let seen = all.take(i as int);
                assert(all.take(i + 1) =~= seen.push(token));
                assert(seen.push(token).drop_last() =~= seen);
                assert forall|term: Seq<char>| #[trigger]
                    seen.push(token).contains(term) <==> (seen.contains(term) || term == token) by {
                    if seen.contains(term) {
                        let k = choose|k: int| 0 <= k < seen.len() && seen[k] == term;
                        assert(seen.push(token)[k] == term);
                    }
                    if term == token {
                        assert(seen.push(token)[seen.len() as int] == term);
                    }
                }
                lemma_occurrences(seen, token);
                let grown = seen.push(token);
                assert forall|term: Seq<char>| grown.contains(term) implies #[trigger] occurrences(
                    grown,
                    term,
                ) == table_of(entries@)[term] by {
                    if term != token {
                        assert(seen.contains(term));
                    }
                }
                assert(table_of(entries@) =~= term_counts(grown));
                assert forall|e: int| 0 <= e < entries.len() implies 1 <= (
                #[trigger] entries@[e]).count <= i + 1 by {
                    let term = entry_terms(entries@)[e];
                    assert(entry_terms(entries@).contains(term));
                    let at = entry_terms(entries@).index_of(term);
                    assert(entry_terms(entries@)[at] == term);
                    assert(at == e);
                    assert(table_of(entries@)[term] == entries@[e].count);
                    lemma_occurrences(all.take(i + 1), term);
                }
            }
            i += 1;
        }
        assert(all.take(tokens.len() as int) =~= all);
        TermCounts { entries }
    }
}

/// Counts `term` once more: its count grows by one, or it enters the table
/// with the count one.
fn add_one(entries: &mut Vec<TermCount>, term: String)
    requires
        entry_terms(old(entries)@).no_duplicates(),
        forall|e: int|
            0 <= e < old(entries).len() && (#[trigger] old(entries)@[e]).term@ == term@ ==> old(
                entries,
            )@[e].count < usize::MAX,
    ensures
        entry_terms(final(entries)@).no_duplicates(),
        table_of(final(entries)@) == table_of(old(entries)@).insert(
            term@,
            if table_of(old(entries)@).contains_key(term@) {
                (table_of(old(entries)@)[term@] + 1) as nat
            } else {
                1
            },
        ),
{
    let ghost before = entries@;
    let ghost terms = entry_terms(before);
    let mut e: usize = 0;
    while e < entries.len()
        invariant
            e <= entries.len(),
            entries@ == before,
            before == old(entries)@,
            terms == entry_terms(before),
            terms.no_duplicates(),
            forall|k: int|
                0 <= k < before.len() && (#[trigger] before[k]).term@ == term@ ==> before[k].count
                    < usize::MAX,
            forall|k: int| 0 <= k < e ==> terms[k] != term@,
        decreases entries.len() - e,
    {
        if entries[e].term == term {
            let mut entry = entries.remove(e);
            entry.count += 1;
            entries.insert(e, entry);
            proof {
                assert(terms[e as int] == term@);
                assert(entry_terms(entries@) =~= terms);
                let at = terms.index_of(term@);
                assert(at == e);
                assert forall|t: Seq<char>| terms.contains(t) implies #[trigger] table_of(
                    entries@,
                )[t] == table_of(before).insert(term@, (table_of(before)[term@] + 1) as nat)[t] by {
                    let k = terms.index_of(t);
                    assert(terms[k] == t);
                    if k != e {
                        assert(terms[k] != terms[e as int]);
                        assert(entries@[k] == before[k]);
                    }
                }
                assert(table_of(before).contains_key(term@));
                assert(table_of(entries@) =~= table_of(before).insert(
                    term@,
                    (table_of(before)[term@] + 1) as nat,
                ));
            }
            return ;
        }
        e += 1;
    }
    let entry = TermCount { term, count: 1 };
    entries.push(entry);
    proof {
        let after = entry_terms(entries@);
        assert(after =~= terms.push(term@));
        assert forall|t: Seq<char>| #[trigger] after.contains(t) <==> (terms.contains(t) || t
            == term@) by {
            if terms.contains(t) {
                let k = choose|k: int| 0 <= k < terms.len() && terms[k] == t;
                assert(after[k] == t);
            }
            if t == term@ {
                assert(after[terms.len() as int] == t);
            }
        }
        assert forall|t: Seq<char>| after.contains(t) implies #[trigger] table_of(entries@)[t]
            == table_of(before).insert(term@, 1)[t] by {
            let k = after.index_of(t);
            if t != term@ {
                let k0 = terms.index_of(t);
                assert(after[k0] == t);
                assert(k == k0);
            }
        }
    }
}

} // verus!
