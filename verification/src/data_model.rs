//! The data that the engine works on: cards, topic paths and ranked hits,
//! each with the mathematical value that the contracts speak of.

use vstd::prelude::*;
use vstd::string::StringSliceAdditionalSpecFns;
use vstd::utf8::{decode_utf8, encode_utf8_decode_utf8, is_char_boundary};
use crate::text::{join, join_texts, push_text, texts};

verus! {

/// A hierarchical topic path, outermost segment first. The empty path means
/// that no topic is assigned.
pub type DeckPath = Vec<String>;

/// One question/answer pair.
#[derive(Debug, Clone)]
pub struct Card {
    pub guid: String,
    pub question_text: String,
    pub answer_raw: String,
    pub deck_path: DeckPath,
}

/// What a card holds, as texts.
pub struct CardView {
    pub guid: Seq<char>,
    pub question_text: Seq<char>,
    pub answer_raw: Seq<char>,
    pub deck_path: Seq<Seq<char>>,
}

impl View for Card {
    type V = CardView;

    open spec fn view(&self) -> CardView {
        CardView {
            guid: self.guid@,
            question_text: self.question_text@,
            answer_raw: self.answer_raw@,
            deck_path: texts(self.deck_path@),
        }
    }
}

/// The views of a sequence of cards.
pub open spec fn card_views(cards: Seq<Card>) -> Seq<CardView> {
    cards.map_values(|c: Card| c@)
}

/// A ranked result. `score` is an integer by which hits are ordered: a
/// greater score ranks first.
#[derive(Debug, Clone)]
pub struct AnswerHit {
    pub guid: String,
    pub score: u64,
    pub question_preview: Option<String>,
    pub deck_path: DeckPath,
}

/// What a hit holds, as texts.
pub struct AnswerHitView {
    pub guid: Seq<char>,
    pub score: u64,
    pub question_preview: Option<Seq<char>>,
    pub deck_path: Seq<Seq<char>>,
}

impl View for AnswerHit {
    type V = AnswerHitView;

    open spec fn view(&self) -> AnswerHitView {
        AnswerHitView {
            guid: self.guid@,
            score: self.score,
            question_preview: match self.question_preview {
                Some(text) => Some(text@),
                None => None,
            },
            deck_path: texts(self.deck_path@),
        }
    }
}

/// The views of a sequence of hits.
pub open spec fn hit_views(hits: Seq<AnswerHit>) -> Seq<AnswerHitView> {
    hits.map_values(|h: AnswerHit| h@)
}

/// A query as a caller states it.
#[derive(Debug, Clone)]
pub struct QueryRequest {
    pub query_text: String,
    pub topic_text: String,
    pub algorithm_name: String,
    pub top_k: usize,
}

/// A line of a deck file that was refused, with the reason.
#[derive(Debug, Clone)]
pub struct InvalidRecord {
    pub file_path: String,
    pub line_number: usize,
    pub reason: String,
    pub raw_line: String,
}

/// A copy of a topic path.
pub fn clone_path(path: &Vec<String>) -> (copy: Vec<String>)
    ensures
        copy@ == path@,
{
    let mut copy: Vec<String> = Vec::new();
    let mut i: usize = 0;
    while i < path.len()
        invariant
            i <= path.len(),
            copy@ == path@.take(i as int),
        decreases path.len() - i,
    {
        copy.push(path[i].clone());
        i += 1;
    }
    copy
}

/// A copy of a card.
pub fn clone_card(card: &Card) -> (copy: Card)
    ensures
        copy@ == card@,
{
    Card {
        guid: card.guid.clone(),
        question_text: card.question_text.clone(),
        answer_raw: card.answer_raw.clone(),
        deck_path: clone_path(&card.deck_path),
    }
}

/// Puts a hit together from its parts.
pub fn make_hit(
    guid: String,
    deck_path: DeckPath,
    question_preview: Option<String>,
    score: u64,
) -> (hit: AnswerHit)
    ensures
        hit.guid == guid,
        hit.deck_path == deck_path,
        hit.question_preview == question_preview,
        hit.score == score,
{
    AnswerHit { guid, deck_path, question_preview, score }
}

/// A topic path as one text, its segments joined with `::`.
pub fn deck_path_to_string(deck_path: &DeckPath) -> (text: String)
    ensures
        text@ == join(texts(deck_path@), "::"@),
{
    join_texts(deck_path, "::")
}

/// What a refused line holds, as texts.
pub struct InvalidRecordView {
    pub file_path: Seq<char>,
    pub line_number: nat,
    pub reason: Seq<char>,
    pub raw_line: Seq<char>,
}

impl View for InvalidRecord {
    type V = InvalidRecordView;

    open spec fn view(&self) -> InvalidRecordView {
        InvalidRecordView {
            file_path: self.file_path@,
            line_number: self.line_number as nat,
            reason: self.reason@,
            raw_line: self.raw_line@,
        }
    }
}

/// The views of a sequence of refused lines.
pub open spec fn record_views(records: Seq<InvalidRecord>) -> Seq<InvalidRecordView> {
    records.map_values(|r: InvalidRecord| r@)
}

/// The preview of a text of `length` bytes with at most `max_length` bytes
/// asked for: the whole text where it is short enough; else its first
/// `max_length - 1` bytes and an ellipsis; the ellipsis alone where
/// `max_length` is at most one.
pub open spec fn preview(bytes: Seq<u8>, max_length: nat) -> Seq<char> {
    if bytes.len() <= max_length {
        decode_utf8(bytes)
    } else if max_length <= 1 {
        "…"@
    } else {
        decode_utf8(bytes.subrange(0, max_length - 1)) + "…"@
    }
}

/// A short preview of a text, cut to `max_length` bytes with an ellipsis
/// where it is longer. The cut must not fall inside a character.
pub fn short_preview(full_text: &str, max_length: usize) -> (shortened: String)
    requires
        full_text.spec_bytes().len() > max_length && max_length > 1 ==> is_char_boundary(
            full_text.spec_bytes(),
            max_length - 1,
        ),
    ensures
        shortened@ == preview(full_text.spec_bytes(), max_length as nat),
{
    if full_text.as_bytes().len() <= max_length {
        let whole = full_text.to_owned();
        proof {
            encode_utf8_decode_utf8(full_text@);
        }
        whole
    } else if max_length <= 1 {
        "…".to_owned()
    } else {
        let cut_index = max_length - 1;
        let (head, _) = full_text.split_at(cut_index);
        let mut shortened = head.to_owned();
        proof {
            encode_utf8_decode_utf8(head@);
        }
        push_text(&mut shortened, "…");
        shortened
    }
}

/// The cards by identifier: of cards with the same identifier the last
/// one counts.
pub open spec fn by_guid(cards: Seq<CardView>) -> Map<Seq<char>, CardView>
    decreases cards.len(),
{
    if cards.len() == 0 {
        Map::empty()
    } else {
        by_guid(cards.drop_last()).insert(cards.last().guid, cards.last())
    }
}

/// A table from identifiers to cards.
#[derive(Debug)]
pub struct GuidIndex {
    cards: Vec<Card>,
}

/// The identifiers of a list of cards.
pub open spec fn card_guids(cards: Seq<Card>) -> Seq<Seq<char>> {
    cards.map_values(|c: Card| c.guid@)
}

/// The table that a list of cards with distinct identifiers stands for.
pub open spec fn guid_table(cards: Seq<Card>) -> Map<Seq<char>, CardView> {
    Map::new(
        |guid: Seq<char>| card_guids(cards).contains(guid),
        |guid: Seq<char>| cards[card_guids(cards).index_of(guid)]@,
    )
}

impl View for GuidIndex {
    type V = Map<Seq<char>, CardView>;

    closed spec fn view(&self) -> Map<Seq<char>, CardView> {
        guid_table(self.cards@)
    }
}

impl GuidIndex {
    #[verifier::type_invariant]
    spec fn distinct_guids(&self) -> bool {
        card_guids(self.cards@).no_duplicates()
    }

    /// The card with the given identifier, if there is one.
    pub fn get(&self, guid: &String) -> (found: Option<&Card>)
        ensures
            match found {
                Some(card) => self@.contains_key(guid@) && self@[guid@] == card@,
                None => !self@.contains_key(guid@),
            },
    {
        proof {
            use_type_invariant(self);
        }
        let ghost guids = card_guids(self.cards@);
        let mut i: usize = 0;
        while i < self.cards.len()
            invariant
                i <= self.cards.len(),
                guids == card_guids(self.cards@),
                guids.no_duplicates(),
                forall|k: int| 0 <= k < i ==> guids[k] != guid@,
            decreases self.cards.len() - i,
        {
            if self.cards[i].guid == *guid {
                proof {
                    assert(guids[i as int] == guid@);
                }
                return Some(&self.cards[i]);
            }
            i += 1;
        }
        None
    }

    /// The number of identifiers in the table.
    pub fn len(&self) -> (n: usize)
        ensures
            self@.dom().finite(),
            n == self@.dom().len(),
    {
        proof {
            use_type_invariant(self);
            let guids = card_guids(self.cards@);
            guids.unique_seq_to_set();
        }
        self.cards.len()
    }
}

/// The cards by their identifiers.
pub fn build_guid_index(cards: &[Card]) -> (index: GuidIndex)
    ensures
        index@ == by_guid(card_views(cards@)),
{
    let ghost all = card_views(cards@);
    let mut kept: Vec<Card> = Vec::new();
    let mut i: usize = 0;
    while i < cards.len()
        invariant
            i <= cards.len(),
            all == card_views(cards@),
            card_guids(kept@).no_duplicates(),
            guid_table(kept@) == by_guid(all.take(i as int)),
        decreases cards.len() - i,
    {
        let card = clone_card(&cards[i]);
        let ghost before = kept@;
        let ghost guids = card_guids(before);
        let ghost guid = card.guid@;
        proof {
            assert(all.take(i + 1).drop_last() =~= all.take(i as int));
        }
        let mut e: usize = 0;
        let mut found = false;
        while e < kept.len()
            invariant_except_break
                !found,
                forall|k: int| 0 <= k < e ==> guids[k] != guid,
            invariant
                e <= kept.len(),
                kept@ == before,
                guids == card_guids(before),
                guid == card.guid@,
            ensures
                e <= kept.len(),
                kept@ == before,
                found ==> e < kept.len() && guids[e as int] == guid,
                !found ==> forall|k: int| 0 <= k < kept.len() ==> guids[k] != guid,
            decreases kept.len() - e,
        {
            if kept[e].guid == card.guid {
                found = true;
                break ;
            }
            e += 1;
        }
        if found {
            kept.set(e, card);
            proof {
                let after = card_guids(kept@);
                assert(after =~= guids);
            }
        } else {
            kept.push(card);
            proof {
                let after = card_guids(kept@);
                assert(after =~= guids.push(guid));
                assert forall|g: Seq<char>| #[trigger] after.contains(g) <==> (guids.contains(g) || g
                    == guid) by {
                    if guids.contains(g) {
                        let k = choose|k: int| 0 <= k < guids.len() && guids[k] == g;
                        assert(after[k] == g);
                    }
                    if g == guid {
                        assert(after[guids.len() as int] == g);
                    }
                }
            }
        }
        i += 1;
    }
    assert(all.take(cards.len() as int) =~= all);
    GuidIndex { cards: kept }
}

} // verus!
