//! A finite set of tokens, kept as a list in which no token occurs twice.

use vstd::prelude::*;
use crate::text::texts;

verus! {

/// A finite set of tokens. Its view is the set of the tokens' texts.
#[derive(Debug)]
pub struct TokenSet {
    items: Vec<String>,
}

impl View for TokenSet {
    type V = Set<Seq<char>>;

    closed spec fn view(&self) -> Set<Seq<char>> {
        texts(self.items@).to_set()
    }
}

impl Clone for TokenSet {
    fn clone(&self) -> (copy: TokenSet)
        ensures
            copy@ == self@,
    {
        proof {
            use_type_invariant(self);
        }
        let mut items: Vec<String> = Vec::new();
        let mut i: usize = 0;
        while i < self.items.len()
            invariant
                i <= self.items.len(),
                items@ == self.items@.take(i as int),
            decreases self.items.len() - i,
        {
            items.push(self.items[i].clone());
            i += 1;
        }
        assert(self.items@.take(self.items.len() as int) =~= self.items@);
        TokenSet { items }
    }
}

/// A list of texts without repetition has as many entries as its set has
/// members.
pub proof fn lemma_distinct_texts_len(items: Seq<Seq<char>>)
    requires
        items.no_duplicates(),
    ensures
        items.to_set().finite(),
        items.to_set().len() == items.len(),
{
    items.unique_seq_to_set();
}

impl TokenSet {
    #[verifier::type_invariant]
    spec fn distinct(&self) -> bool {
        texts(self.items@).no_duplicates()
    }

    /// The empty set.
    pub fn new() -> (set: TokenSet)
        ensures
            set@ == Set::<Seq<char>>::empty(),
    {
        TokenSet { items: Vec::new() }
    }

    /// Whether `token` is a member.
    pub fn contains(&self, token: &String) -> (found: bool)
        ensures
            found == self@.contains(token@),
    {
        let mut i: usize = 0;
        while i < self.items.len()
            invariant
                i <= self.items.len(),
                forall|k: int| 0 <= k < i ==> self.items@[k]@ != token@,
            decreases self.items.len() - i,
        {
            if self.items[i] == *token {
                assert(texts(self.items@)[i as int] == token@);
                return true;
            }
            i += 1;
        }
        false
    }

    /// Adds `token`; says whether it was new.
    pub fn insert(&mut self, token: String) -> (fresh: bool)
        ensures
            final(self)@ == old(self)@.insert(token@),
            fresh == !old(self)@.contains(token@),
    {
        if self.contains(&token) {
            false
        } else {
            proof {
                use_type_invariant(&*self);
                let before = texts(self.items@);
                assert(texts(self.items@.push(token)) =~= before.push(token@));
                before.lemma_push_to_set_commute(token@);
            }
            let mut items: Vec<String> = Vec::new();
            std::mem::swap(&mut self.items, &mut items);
            items.push(token);
            std::mem::swap(&mut self.items, &mut items);
            true
        }
    }

    /// The number of members.
    pub fn len(&self) -> (n: usize)
        ensures
            n == self@.len(),
            self@.finite(),
    {
        proof {
            use_type_invariant(self);
            lemma_distinct_texts_len(texts(self.items@));
        }
        self.items.len()
    }

    /// Whether the set has no member.
    pub fn is_empty(&self) -> (empty: bool)
        ensures
            empty == (self@ == Set::<Seq<char>>::empty()),
    {
        proof {
            if self.items.len() > 0 {
                assert(texts(self.items@)[0] == self.items@[0]@);
                assert(self@.contains(self.items@[0]@));
            } else {
                assert(self@ =~= Set::<Seq<char>>::empty());
            }
        }
        self.items.len() == 0
    }

    /// The set of the tokens in `tokens`.
    pub fn from_tokens(tokens: &Vec<String>) -> (set: TokenSet)
        ensures
            set@ == texts(tokens@).to_set(),
    {
        let mut set = TokenSet::new();
        let mut i: usize = 0;
        while i < tokens.len()
            invariant
                i <= tokens.len(),
                set@ == texts(tokens@).take(i as int).to_set(),
            decreases tokens.len() - i,
        {
            proof {
                let seen = texts(tokens@).take(i as int);
                assert(texts(tokens@).take(i + 1) =~= seen.push(tokens@[i as int]@));
                seen.lemma_push_to_set_commute(tokens@[i as int]@);
            }
            set.insert(tokens[i].clone());
            i += 1;
        }
        assert(texts(tokens@).take(tokens.len() as int) =~= texts(tokens@));
        set
    }

    /// The members, each once.
    pub fn to_vec(&self) -> (members: Vec<String>)
        ensures
            texts(members@).to_set() == self@,
            texts(members@).no_duplicates(),
    {
        proof {
            use_type_invariant(self);
        }
        let mut members: Vec<String> = Vec::new();
        let mut i: usize = 0;
        while i < self.items.len()
            invariant
                i <= self.items.len(),
                texts(members@) == texts(self.items@).take(i as int),
            decreases self.items.len() - i,
        {
            proof {
                assert(texts(members@.push(self.items@[i as int])) =~= texts(members@).push(
                    self.items@[i as int]@,
                ));
            }
            members.push(self.items[i].clone());
            i += 1;
        }
        assert(texts(self.items@).take(self.items.len() as int) =~= texts(self.items@));
        members
    }

    /// The number of tokens that are members of both sets.
    pub fn overlap(&self, other: &TokenSet) -> (shared: usize)
        ensures
            shared == self@.intersect(other@).len(),
            self@.intersect(other@).finite(),
    {
        proof {
            use_type_invariant(self);
        }
        let ghost all = texts(self.items@);
        let mut shared: usize = 0;
        let mut i: usize = 0;
        assert(all.take(0).to_set().intersect(other@) =~= Set::<Seq<char>>::empty());
        while i < self.items.len()
            invariant
                i <= self.items.len(),
                all == texts(self.items@),
                all.no_duplicates(),
                shared <= i,
                all.take(i as int).to_set().intersect(other@).finite(),
                shared == all.take(i as int).to_set().intersect(other@).len(),
            decreases self.items.len() - i,
        {
            let present = other.contains(&self.items[i]);
            proof {
                let seen = all.take(i as int);
                let token = all[i as int];
                assert(all.take(i + 1) =~= seen.push(token));
                seen.lemma_push_to_set_commute(token);
                if present {
                    assert(seen.to_set().insert(token).intersect(other@) =~= seen.to_set().intersect(
                        other@,
                    ).insert(token));
                } else {
                    assert(seen.to_set().insert(token).intersect(other@) =~= seen.to_set().intersect(
                        other@,
                    ));
                }
            }
            if present {
                shared += 1;
            }
            i += 1;
        }
        assert(all.take(self.items.len() as int) =~= all);
        shared
    }
}

} // verus!
