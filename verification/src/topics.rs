//! The topic index: cards grouped by their exact topic path, the list of
//! topics in use, the resolution of a topic that a user typed, and the
//! cards of a topic with or without the topics below it.

use vstd::prelude::*;
use crate::data_model::{card_views, clone_card, clone_path, Card, CardView, DeckPath};
use crate::order::{
    first_few, insert_path, insert_text, lemma_path_order_strict_total, lemma_sorted_set,
    path_order, path_views, paths_equal, sorted_set, strictly_sorted, text_order,
};
use crate::text::{
    join, join_texts, push_text, split, split_text, starts_with, text_starts_with, texts, trim,
    trimmed,
};

verus! {

/// The values of `s`, each once, in the order in which they first occur.
pub open spec fn first_seen<T>(s: Seq<T>) -> Seq<T>
    decreases s.len(),
{
    if s.len() == 0 {
        Seq::empty()
    } else if first_seen(s.drop_last()).contains(s.last()) {
        first_seen(s.drop_last())
    } else {
        first_seen(s.drop_last()).push(s.last())
    }
}

/// The topic path of each card.
pub open spec fn card_paths(cards: Seq<CardView>) -> Seq<Seq<Seq<char>>> {
    cards.map_values(|c: CardView| c.deck_path)
}

/// The cards whose topic path is exactly `path`, in their order.
pub open spec fn cards_at(cards: Seq<CardView>, path: Seq<Seq<char>>) -> Seq<CardView> {
    cards.filter(|c: CardView| c.deck_path == path)
}

/// The cards grouped by topic path: each path that a card has, with the
/// cards that have it.
pub open spec fn grouped(cards: Seq<CardView>) -> Map<Seq<Seq<char>>, Seq<CardView>> {
    Map::new(
        |path: Seq<Seq<char>>| card_paths(cards).contains(path),
        |path: Seq<Seq<char>>| cards_at(cards, path),
    )
}

/// Whether `path` begins with the segments of `prefix`.
pub open spec fn is_prefix(prefix: Seq<Seq<char>>, path: Seq<Seq<char>>) -> bool {
    prefix.len() <= path.len() && path.take(prefix.len() as int) == prefix
}

/// The cards of every path among `paths` that begins with `root`, group after
/// group in the order of `paths`.
pub open spec fn subtree_cards(
    paths: Seq<Seq<Seq<char>>>,
    groups: Map<Seq<Seq<char>>, Seq<CardView>>,
    root: Seq<Seq<char>>,
) -> Seq<CardView>
    decreases paths.len(),
{
    if paths.len() == 0 {
        Seq::empty()
    } else if is_prefix(root, paths.last()) {
        subtree_cards(paths.drop_last(), groups, root) + groups[paths.last()]
    } else {
        subtree_cards(paths.drop_last(), groups, root)
    }
}

/// The candidates for a topic: with `include_subtree` the cards of `root`
/// and of every topic below it; without, the cards of `root` alone.
pub open spec fn candidates_of(
    paths: Seq<Seq<Seq<char>>>,
    groups: Map<Seq<Seq<char>>, Seq<CardView>>,
    root: Seq<Seq<char>>,
    include_subtree: bool,
) -> Seq<CardView> {
    if include_subtree {
        subtree_cards(paths, groups, root)
    } else if groups.contains_key(root) {
        groups[root]
    } else {
        Seq::empty()
    }
}

/// The topic paths in use: those of the cards that have a topic, in
/// ascending order, each once.
pub open spec fn available_topics(cards: Seq<CardView>) -> Seq<Seq<Seq<char>>> {
    sorted_set(path_order(), card_paths(cards).filter(|p: Seq<Seq<char>>| p.len() > 0))
}

/// One topic path with the cards that have it.
#[derive(Debug, Clone)]
pub struct TopicEntry {
    path: Vec<String>,
    cards: Vec<Card>,
}

/// Cards grouped by their exact topic path. The view maps each path to its
/// cards; `paths` gives the paths in the order in which they were first met.
#[derive(Debug)]
pub struct TopicIndex {
    entries: Vec<TopicEntry>,
}

/// The paths of a list of entries.
pub closed spec fn entry_paths(entries: Seq<TopicEntry>) -> Seq<Seq<Seq<char>>> {
    entries.map_values(|e: TopicEntry| texts(e.path@))
}

impl View for TopicIndex {
    type V = Map<Seq<Seq<char>>, Seq<CardView>>;

    closed spec fn view(&self) -> Map<Seq<Seq<char>>, Seq<CardView>> {
        Map::new(
            |path: Seq<Seq<char>>| entry_paths(self.entries@).contains(path),
            |path: Seq<Seq<char>>|
                card_views(self.entries@[entry_paths(self.entries@).index_of(path)].cards@),
        )
    }
}

impl TopicIndex {
    #[verifier::type_invariant]
    spec fn distinct_paths(&self) -> bool {
        entry_paths(self.entries@).no_duplicates()
    }

    /// The paths of the index, in the order in which they were first met.
    pub closed spec fn paths(&self) -> Seq<Seq<Seq<char>>> {
        entry_paths(self.entries@)
    }

    /// The number of topic paths in the index.
    pub fn len(&self) -> (n: usize)
        ensures
            n == self.paths().len(),
    {
        self.entries.len()
    }
}

/// A copy of a list of cards.
pub fn clone_cards(cards: &[Card]) -> (copy: Vec<Card>)
    ensures
        card_views(copy@) == card_views(cards@),
{
    let mut copy: Vec<Card> = Vec::new();
    let mut i: usize = 0;
    while i < cards.len()
        invariant
            i <= cards.len(),
            card_views(copy@) == card_views(cards@).take(i as int),
        decreases cards.len() - i,
    {
        let card = clone_card(&cards[i]);
        proof {
            assert(card_views(cards@).take(i + 1) =~= card_views(cards@).take(i as int).push(
                cards@[i as int]@,
            ));
        }
        copy.push(card);
        i += 1;
    }
    copy
}

/// What `first_seen` holds: the values of `s`, none twice.
pub proof fn lemma_first_seen<T>(s: Seq<T>)
    ensures
        first_seen(s).no_duplicates(),
        forall|x: T| first_seen(s).contains(x) <==> s.contains(x),
    decreases s.len(),
{
    if s.len() > 0 {
        let shorter = s.drop_last();
        lemma_first_seen(shorter);
        let prev = first_seen(shorter);
        assert forall|x: T| first_seen(s).contains(x) <==> s.contains(x) by {
            if s.contains(x) {
                let k = choose|k: int| 0 <= k < s.len() && s[k] == x;
                if k < s.len() - 1 {
                    assert(shorter[k] == x);
                    assert(shorter.contains(x));
                    let m = choose|m: int| 0 <= m < prev.len() && prev[m] == x;
                    assert(first_seen(s)[m] == x);
                } else if !prev.contains(s.last()) {
                    assert(first_seen(s)[prev.len() as int] == x);
                }
            }
            if first_seen(s).contains(x) {
                let m = choose|m: int| 0 <= m < first_seen(s).len() && first_seen(s)[m] == x;
                if m < prev.len() {
                    assert(shorter.contains(x));
                }
            }
        }
    }
}

/// Groups the cards by their exact topic path.
pub fn build_topic_index(cards: &[Card]) -> (index: TopicIndex)
    ensures
        index@ == grouped(card_views(cards@)),
        index.paths() == first_seen(card_paths(card_views(cards@))),
{
    let ghost all = card_views(cards@);
    let mut entries: Vec<TopicEntry> = Vec::new();
    let mut i: usize = 0;
    while i < cards.len()
        invariant
            i <= cards.len(),
            all == card_views(cards@),
            entry_paths(entries@) == first_seen(card_paths(all.take(i as int))),
            forall|e: int|
                0 <= e < entries.len() ==> card_views((#[trigger] entries@[e]).cards@) == cards_at(
                    all.take(i as int),
                    entry_paths(entries@)[e],
                ),
        decreases cards.len() - i,
    {
        let card = clone_card(&cards[i]);
        let ghost seen = all.take(i as int);
        let ghost path = card@.deck_path;
        let ghost old_paths = entry_paths(entries@);
        proof {
            assert(all.take(i + 1) =~= seen.push(card@));
            assert(card_paths(all.take(i + 1)).drop_last() =~= card_paths(seen));
            lemma_first_seen(card_paths(seen));
            assert forall|p: Seq<Seq<char>>|
                cards_at(all.take(i + 1), p) == if p == path {
                    cards_at(seen, p).push(card@)
                } else {
                    cards_at(seen, p)
                } by {
                seen.lemma_filter_push(card@, |c: CardView| c.deck_path == p);
            }
        }
        let mut e: usize = 0;
        let mut found = false;
        while e < entries.len()
            invariant_except_break
                !found,
                forall|k: int| 0 <= k < e ==> old_paths[k] != path,
            invariant
                e <= entries.len(),
                old_paths == entry_paths(entries@),
                path == texts(card.deck_path@),
            ensures
                e <= entries.len(),
                found ==> e < entries.len() && old_paths[e as int] == path,
                !found ==> forall|k: int| 0 <= k < entries.len() ==> old_paths[k] != path,
            decreases entries.len() - e,
        {
            if paths_equal(&entries[e].path, &card.deck_path) {
                found = true;
                break ;
            }
            e += 1;
        }
        if found {
            let mut entry = entries.remove(e);
            entry.cards.push(card);
            entries.insert(e, entry);
        } else {
            let mut entry = TopicEntry { path: clone_path(&card.deck_path), cards: Vec::new() };
            proof {
                assert(!card_paths(seen).contains(path));
                assert(cards_at(seen, path) =~= Seq::<CardView>::empty()) by {
                    if cards_at(seen, path).len() > 0 {
                        let c = cards_at(seen, path)[0];
                        seen.lemma_filter_contains_rev(|c: CardView| c.deck_path == path, c);
                        let k = choose|k: int| 0 <= k < seen.len() && seen[k] == c;
                        assert(card_paths(seen)[k] == path);
                    }
                }
            }
            entry.cards.push(card);
            entries.push(entry);
        }
        i += 1;
    }
    proof {
        assert(all.take(cards.len() as int) =~= all);
        lemma_first_seen(card_paths(all));
    }
    TopicIndex { entries }
}

/// Whether `path` begins with the segments of `prefix`.
pub fn path_starts_with(path: &DeckPath, prefix: &DeckPath) -> (r: bool)
    ensures
        r == is_prefix(texts(prefix@), texts(path@)),
{
    if prefix.len() > path.len() {
        return false;
    }
    let mut i: usize = 0;
    while i < prefix.len()
        invariant
            i <= prefix.len() <= path.len(),
            texts(path@).take(i as int) == texts(prefix@).take(i as int),
        decreases prefix.len() - i,
    {
        if path[i] != prefix[i] {
            proof {
                assert(texts(prefix@)[i as int] == prefix@[i as int]@);
            }
            return false;
        }
        i += 1;
    }
    assert(texts(prefix@).take(prefix.len() as int) =~= texts(prefix@));
    true
}

/// The cards of `root_topic`; with `include_subtree` also those of every
/// topic below it.
pub fn collect_subtree_candidates(
    topic_index: &TopicIndex,
    root_topic: &DeckPath,
    include_subtree: bool,
) -> (candidates: Vec<Card>)
    ensures
        card_views(candidates@) == candidates_of(
            topic_index.paths(),
            topic_index@,
            texts(root_topic@),
            include_subtree,
        ),
{
    proof {
        use_type_invariant(topic_index);
    }
    let ghost paths = topic_index.paths();
    let ghost root = texts(root_topic@);
    let mut results: Vec<Card> = Vec::new();
    if !include_subtree {
        let mut e: usize = 0;
        while e < topic_index.entries.len()
            invariant
                e <= topic_index.entries.len(),
                paths == entry_paths(topic_index.entries@),
                paths == topic_index.paths(),
                paths.no_duplicates(),
                root == texts(root_topic@),
                !include_subtree,
                forall|k: int| 0 <= k < e ==> paths[k] != root,
            decreases topic_index.entries.len() - e,
        {
            if paths_equal(&topic_index.entries[e].path, root_topic) {
                proof {
                    assert(paths[e as int] == root);
                }
                return clone_cards(topic_index.entries[e].cards.as_slice());
            }
            e += 1;
        }
        return results;
    }
    let mut e: usize = 0;
    while e < topic_index.entries.len()
        invariant
            e <= topic_index.entries.len(),
            paths == entry_paths(topic_index.entries@),
            paths.no_duplicates(),
            root == texts(root_topic@),
            card_views(results@) == subtree_cards(paths.take(e as int), topic_index@, root),
        decreases topic_index.entries.len() - e,
    {
        let entry = &topic_index.entries[e];
        proof {
            assert(paths.take(e + 1).drop_last() =~= paths.take(e as int));
        }
        if path_starts_with(&entry.path, root_topic) {
            let mut group = clone_cards(entry.cards.as_slice());
            results.append(&mut group);
        }
        e += 1;
    }
    assert(paths.take(topic_index.entries.len() as int) =~= paths);
    results
}

/// The distinct topic paths of the cards that have a topic, in ascending
/// order.
pub fn list_available_topics(cards: &[Card]) -> (topics: Vec<DeckPath>)
    ensures
        path_views(topics@) == available_topics(card_views(cards@)),
{
    let ghost all = card_paths(card_views(cards@));
    let ghost assigned = |p: Seq<Seq<char>>| p.len() > 0;
    let mut topics: Vec<DeckPath> = Vec::new();
    let mut i: usize = 0;
    while i < cards.len()
        invariant
            i <= cards.len(),
            all == card_paths(card_views(cards@)),
            assigned == |p: Seq<Seq<char>>| p.len() > 0,
            path_views(topics@) == sorted_set(path_order(), all.take(i as int).filter(assigned)),
        decreases cards.len() - i,
    {
        let card = &cards[i];
        proof {
            assert(all.take(i + 1) =~= all.take(i as int).push(all[i as int]));
            all.take(i as int).lemma_filter_push(all[i as int], assigned);
            let kept = all.take(i as int).filter(assigned);
            assert(kept.push(all[i as int]).drop_last() =~= kept);
        }
        if card.deck_path.len() > 0 {
            insert_path(&mut topics, clone_path(&card.deck_path));
        }
        i += 1;
    }
    assert(all.take(cards.len() as int) =~= all);
    topics
}

/// The most suggestions that an unknown topic is answered with.
pub const MAX_SUGGESTIONS: usize = 5;

/// The topic path that a user's text asks for: nothing where the text is
/// blank; else its pieces between the separators, each trimmed.
pub open spec fn requested_path(topic_text: Seq<char>, separator: Seq<char>) -> Seq<Seq<char>> {
    if trimmed(topic_text).len() == 0 {
        Seq::empty()
    } else {
        split(topic_text, separator).map_values(|segment: Seq<char>| trimmed(segment))
    }
}

/// The known topics as texts, each joined with the separator: in ascending
/// order, each once.
pub open spec fn topic_strings(known: Seq<Seq<Seq<char>>>, separator: Seq<char>) -> Seq<Seq<char>> {
    sorted_set(text_order(), known.map_values(|path: Seq<Seq<char>>| join(path, separator)))
}

/// The suggestions for an unknown topic: the first few known topics whose
/// text begins with the first segment that was asked for; where there is
/// none, the first few known topics.
pub open spec fn suggestions(
    first_segment: Seq<char>,
    known: Seq<Seq<Seq<char>>>,
    separator: Seq<char>,
) -> Seq<Seq<char>> {
    let all = topic_strings(known, separator);
    let close = all.filter(|topic: Seq<char>| starts_with(topic, first_segment));
    if close.len() > 0 {
        first_few(close, MAX_SUGGESTIONS as nat)
    } else {
        first_few(all, MAX_SUGGESTIONS as nat)
    }
}

/// The message for a blank topic.
pub open spec fn empty_topic_message() -> Seq<char> {
    "Topic cannot be empty; provide a valid deck path."@
}

/// The second part of the message for an unknown topic.
pub open spec fn hint(suggested: Seq<Seq<char>>) -> Seq<char> {
    if suggested.len() == 0 {
        "No topics available."@
    } else {
        "Did you mean one of:\n- "@ + join(suggested, "\n- "@)
    }
}

/// The message for a topic that is not among the known ones.
pub open spec fn unknown_topic_message(
    wanted: Seq<Seq<char>>,
    known: Seq<Seq<Seq<char>>>,
    separator: Seq<char>,
) -> Seq<char> {
    "Unknown topic: \""@ + join(wanted, separator) + "\"\n"@ + hint(
        suggestions(wanted[0], known, separator),
    )
}

/// What `resolve_topic_string` answers: the path that was asked for where it
/// is a known topic; else the message that says why not.
pub open spec fn resolution(
    topic_text: Seq<char>,
    separator: Seq<char>,
    known: Seq<Seq<Seq<char>>>,
) -> Result<Seq<Seq<char>>, Seq<char>> {
    let wanted = requested_path(topic_text, separator);
    if wanted.len() == 0 {
        Err(empty_topic_message())
    } else if known.contains(wanted) {
        Ok(wanted)
    } else {
        Err(unknown_topic_message(wanted, known, separator))
    }
}

/// The first [`MAX_SUGGESTIONS`] known topics, as texts in ascending order,
/// that begin with `first_segment`; where none does, the first
/// [`MAX_SUGGESTIONS`] known topics.
pub fn suggest_topics(first_segment: &str, topic_separator: &str, known_topics: &[DeckPath]) -> (
    suggested: Vec<String>)
    ensures
        texts(suggested@) == suggestions(
            first_segment@,
            path_views(known_topics@),
            topic_separator@,
        ),
{
    let ghost known = path_views(known_topics@);
    let ghost joined = known.map_values(|path: Seq<Seq<char>>| join(path, topic_separator@));
    let mut by_string: Vec<String> = Vec::new();
    let mut i: usize = 0;
    while i < known_topics.len()
        invariant
            i <= known_topics.len(),
            known == path_views(known_topics@),
            joined == known.map_values(|path: Seq<Seq<char>>| join(path, topic_separator@)),
            texts(by_string@) == sorted_set(text_order(), joined.take(i as int)),
        decreases known_topics.len() - i,
    {
        proof {
            assert(joined.take(i + 1).drop_last() =~= joined.take(i as int));
        }
        insert_text(&mut by_string, join_texts(&known_topics[i], topic_separator));
        i += 1;
    }
    proof {
        assert(joined.take(known_topics.len() as int) =~= joined);
    }
    let ghost all = texts(by_string@);
    let ghost close = |topic: Seq<char>| starts_with(topic, first_segment@);
    let mut suggested: Vec<String> = Vec::new();
    let mut matched: usize = 0;
    let mut j: usize = 0;
    while j < by_string.len()
        invariant
            j <= by_string.len(),
            all == texts(by_string@),
            close == |topic: Seq<char>| starts_with(topic, first_segment@),
            matched == all.take(j as int).filter(close).len(),
            texts(suggested@) == first_few(all.take(j as int).filter(close), MAX_SUGGESTIONS as nat),
        decreases by_string.len() - j,
    {
        let fits = text_starts_with(by_string[j].as_str(), first_segment);
        proof {
            assert(all.take(j + 1) =~= all.take(j as int).push(all[j as int]));
            all.take(j as int).lemma_filter_push(all[j as int], close);
        }
        if fits {
            if matched < MAX_SUGGESTIONS {
                let topic = by_string[j].clone();
                suggested.push(topic);
            }
            matched += 1;
        }
        j += 1;
    }
    proof {
        assert(all.take(by_string.len() as int) =~= all);
    }
    if matched > 0 {
        return suggested;
    }
    let mut k: usize = 0;
    while k < by_string.len() && k < MAX_SUGGESTIONS
        invariant
            k <= by_string.len(),
            k <= MAX_SUGGESTIONS,
            all == texts(by_string@),
            texts(suggested@) == all.take(k as int),
        decreases by_string.len() - k,
    {
        let topic = by_string[k].clone();
        proof {
            assert(all.take(k + 1) =~= all.take(k as int).push(all[k as int]));
        }
        suggested.push(topic);
        k += 1;
    }
    suggested
}

/// Turns the text that a user typed into a topic path, and says whether that
/// path is a known topic.
pub fn resolve_topic_string(
    topic_text: &str,
    topic_separator: &str,
    known_topics: &[DeckPath],
) -> (resolved: Result<DeckPath, String>)
    ensures
        match resolved {
            Ok(path) => resolution(topic_text@, topic_separator@, path_views(known_topics@)) == Ok::<
                Seq<Seq<char>>,
                Seq<char>,
            >(texts(path@)),
            Err(message) => resolution(topic_text@, topic_separator@, path_views(known_topics@))
                == Err::<Seq<Seq<char>>, Seq<char>>(message@),
        },
{
    let ghost known = path_views(known_topics@);
    let ghost wanted = requested_path(topic_text@, topic_separator@);
    let mut deck_path: DeckPath = Vec::new();
    if !trim(topic_text).as_str().is_empty() {
        let pieces = split_text(topic_text, topic_separator);
        let ghost raw = texts(pieces@);
        let mut i: usize = 0;
        while i < pieces.len()
            invariant
                i <= pieces.len(),
                raw == texts(pieces@),
                texts(deck_path@) == raw.take(i as int).map_values(
                    |segment: Seq<char>| trimmed(segment),
                ),
            decreases pieces.len() - i,
        {
            let segment = trim(pieces[i].as_str());
            proof {
                assert(raw.take(i + 1) =~= raw.take(i as int).push(raw[i as int]));
                assert(raw.take(i as int).push(raw[i as int]).map_values(
                    |segment: Seq<char>| trimmed(segment),
                ) =~= raw.take(i as int).map_values(|segment: Seq<char>| trimmed(segment)).push(
                    trimmed(raw[i as int]),
                ));
            }
            deck_path.push(segment);
            i += 1;
        }
    }
    if deck_path.len() == 0 {
        return Err("Topic cannot be empty; provide a valid deck path.".to_owned());
    }
    let mut e: usize = 0;
    while e < known_topics.len()
        invariant
            e <= known_topics.len(),
            known == path_views(known_topics@),
            wanted == texts(deck_path@),
            wanted == requested_path(topic_text@, topic_separator@),
            wanted.len() > 0,
            forall|k: int| 0 <= k < e ==> known[k] != wanted,
        decreases known_topics.len() - e,
    {
        if paths_equal(&known_topics[e], &deck_path) {
            proof {
                assert(known[e as int] == wanted);
            }
            return Ok(deck_path);
        }
        e += 1;
    }
    let suggested = suggest_topics(deck_path[0].as_str(), topic_separator, known_topics);
    let mut message = "Unknown topic: \"".to_owned();
    push_text(&mut message, join_texts(&deck_path, topic_separator).as_str());
    push_text(&mut message, "\"\n");
    if suggested.len() == 0 {
        push_text(&mut message, "No topics available.");
    } else {
        push_text(&mut message, "Did you mean one of:\n- ");
        push_text(&mut message, join_texts(&suggested, "\n- ").as_str());
    }
    proof {
        assert(message@ =~= unknown_topic_message(wanted, known, topic_separator@));
    }
    Err(message)
}

/// Whether a card lies at `root` or below it.
pub open spec fn under(root: Seq<Seq<char>>) -> spec_fn(CardView) -> bool {
    |c: CardView| is_prefix(root, c.deck_path)
}

/// The cards of every path among `paths` that begins with `root`, taken from
/// `cards` group after group.
spec fn subtree_of(paths: Seq<Seq<Seq<char>>>, cards: Seq<CardView>, root: Seq<Seq<char>>) -> Seq<
    CardView,
>
    decreases paths.len(),
{
    if paths.len() == 0 {
        Seq::empty()
    } else if is_prefix(root, paths.last()) {
        subtree_of(paths.drop_last(), cards, root) + cards_at(cards, paths.last())
    } else {
        subtree_of(paths.drop_last(), cards, root)
    }
}

/// Over paths that cards have, the groups of the index are the cards at
/// each path.
proof fn lemma_subtree_of_groups(
    paths: Seq<Seq<Seq<char>>>,
    cards: Seq<CardView>,
    root: Seq<Seq<char>>,
)
    requires
        forall|k: int| 0 <= k < paths.len() ==> card_paths(cards).contains(#[trigger] paths[k]),
    ensures
        subtree_cards(paths, grouped(cards), root) == subtree_of(paths, cards, root),
    decreases paths.len(),
{
    if paths.len() > 0 {
        lemma_subtree_of_groups(paths.drop_last(), cards, root);
    }
}

/// Without cards no topic has a card.
proof fn lemma_subtree_of_nothing(paths: Seq<Seq<Seq<char>>>, root: Seq<Seq<char>>)
    ensures
        subtree_of(paths, Seq::<CardView>::empty(), root) == Seq::<CardView>::empty(),
    decreases paths.len(),
{
    if paths.len() > 0 {
        lemma_subtree_of_nothing(paths.drop_last(), root);
    }
}

/// One more card adds itself to the subtree's cards where its path is among
/// `paths` and begins with `root`, and nothing else.
proof fn lemma_subtree_of_one_more(
    paths: Seq<Seq<Seq<char>>>,
    cards: Seq<CardView>,
    card: CardView,
    root: Seq<Seq<char>>,
)
    requires
        paths.no_duplicates(),
    ensures
        subtree_of(paths, cards.push(card), root).to_multiset() == if paths.contains(
            card.deck_path,
        ) && is_prefix(root, card.deck_path) {
            subtree_of(paths, cards, root).to_multiset().insert(card)
        } else {
            subtree_of(paths, cards, root).to_multiset()
        },
    decreases paths.len(),
{
    broadcast use vstd::seq_lib::group_to_multiset_ensures;

    if paths.len() > 0 {
        let shorter = paths.drop_last();
        let path = paths.last();
        lemma_subtree_of_one_more(shorter, cards, card, root);
        cards.lemma_filter_push(card, |c: CardView| c.deck_path == path);
        let before = subtree_of(shorter, cards, root);
        let after = subtree_of(shorter, cards.push(card), root);
        vstd::seq_lib::lemma_multiset_commutative(after, cards_at(cards.push(card), path));
        vstd::seq_lib::lemma_multiset_commutative(before, cards_at(cards, path));
        if card.deck_path != path {
            assert(paths.contains(card.deck_path) == shorter.contains(card.deck_path)) by {
                if paths.contains(card.deck_path) {
                    let k = choose|k: int| 0 <= k < paths.len() && paths[k] == card.deck_path;
                    assert(shorter[k] == card.deck_path);
                }
            }
        }
    }
}

/// Where the paths are distinct and every card's path is among them, the
/// subtree's cards are the cards that lie at `root` or below it.
proof fn lemma_subtree_of_is_filter(
    paths: Seq<Seq<Seq<char>>>,
    cards: Seq<CardView>,
    root: Seq<Seq<char>>,
)
    requires
        paths.no_duplicates(),
        forall|k: int| 0 <= k < cards.len() ==> paths.contains((#[trigger] cards[k]).deck_path),
    ensures
        subtree_of(paths, cards, root).to_multiset() == cards.filter(under(root)).to_multiset(),
    decreases cards.len(),
{
    broadcast use vstd::seq_lib::group_to_multiset_ensures;

    if cards.len() == 0 {
        lemma_subtree_of_nothing(paths, root);
        assert(cards =~= Seq::<CardView>::empty());
    } else {
        let shorter = cards.drop_last();
        let card = cards.last();
        lemma_subtree_of_is_filter(paths, shorter, root);
        lemma_subtree_of_one_more(paths, shorter, card, root);
        assert(shorter.push(card) =~= cards);
        shorter.lemma_filter_push(card, under(root));
    }
}

/// Of an index built from `cards`, the candidates for `root` without its
/// subtree are the cards whose path is `root`, in their order.
pub proof fn lemma_exact_topic(cards: Seq<CardView>, root: Seq<Seq<char>>)
    ensures
        candidates_of(first_seen(card_paths(cards)), grouped(cards), root, false) == cards_at(
            cards,
            root,
        ),
{
    if !grouped(cards).contains_key(root) {
        let at_root = |c: CardView| c.deck_path == root;
        assert forall|k: int| 0 <= k < cards.len() implies !at_root(#[trigger] cards[k]) by {
            assert(card_paths(cards)[k] == cards[k].deck_path);
        }
        cards.lemma_all_neg_filter_empty(at_root);
    }
}

/// Of an index built from `cards`, the candidates for `root` with its
/// subtree are the cards whose path begins with `root`, each as often as it
/// occurs in `cards`.
pub proof fn lemma_subtree_topic(cards: Seq<CardView>, root: Seq<Seq<char>>)
    ensures
        candidates_of(
            first_seen(card_paths(cards)),
            grouped(cards),
            root,
            true,
        ).to_multiset() == cards.filter(under(root)).to_multiset(),
        candidates_of(first_seen(card_paths(cards)), grouped(cards), root, true).len()
            == cards.filter(under(root)).len(),
{
    let paths = first_seen(card_paths(cards));
    lemma_first_seen(card_paths(cards));
    lemma_subtree_of_groups(paths, cards, root);
    assert forall|k: int| 0 <= k < cards.len() implies paths.contains(
        (#[trigger] cards[k]).deck_path,
    ) by {
        assert(card_paths(cards)[k] == cards[k].deck_path);
        assert(card_paths(cards).contains(cards[k].deck_path));
    }
    lemma_subtree_of_is_filter(paths, cards, root);
    candidates_of(paths, grouped(cards), root, true).to_multiset_ensures();
    cards.filter(under(root)).to_multiset_ensures();
}

/// The topics in use stand in ascending order, none twice, and are the
/// non-empty paths of the cards.
pub proof fn lemma_available_topics(cards: Seq<CardView>)
    ensures
        strictly_sorted(path_order(), available_topics(cards)),
        forall|path: Seq<Seq<char>>|
            available_topics(cards).contains(path) <==> path.len() > 0 && card_paths(
                cards,
            ).contains(path),
{
    let assigned = |p: Seq<Seq<char>>| p.len() > 0;
    let named = card_paths(cards).filter(assigned);
    lemma_path_order_strict_total();
    lemma_sorted_set(path_order(), named);
    assert forall|path: Seq<Seq<char>>|
        available_topics(cards).contains(path) <==> path.len() > 0 && card_paths(cards).contains(
            path,
        ) by {
        assert(available_topics(cards).to_set().contains(path) == named.to_set().contains(path));
        if named.contains(path) {
            card_paths(cards).lemma_filter_contains_rev(assigned, path);
        }
    }
}

/// A topic in use has a candidate, with or without its subtree.
pub proof fn lemma_known_topic_has_candidates(
    cards: Seq<CardView>,
    root: Seq<Seq<char>>,
    include_subtree: bool,
)
    requires
        available_topics(cards).contains(root),
    ensures
        candidates_of(
            first_seen(card_paths(cards)),
            grouped(cards),
            root,
            include_subtree,
        ).len() > 0,
{
    lemma_available_topics(cards);
    let k = choose|k: int| 0 <= k < cards.len() && card_paths(cards)[k] == root;
    if include_subtree {
        lemma_subtree_topic(cards, root);
        assert(root.take(root.len() as int) =~= root);
        cards.lemma_filter_contains(under(root), k);
    } else {
        cards.lemma_filter_contains(|c: CardView| c.deck_path == root, k);
    }
}

/// The message for a topic that has no card.
pub open spec fn no_candidates_message() -> Seq<char> {
    "No candidate cards found for the requested topic."@
}

/// The pool of cards that a query is answered from: all cards where no
/// topic is asked for; else the candidates of the topic, which must be a
/// known one and must have a card.
pub open spec fn candidate_pool(
    cards: Seq<CardView>,
    topic_text: Option<Seq<char>>,
    separator: Seq<char>,
    include_subtree: bool,
) -> Result<Seq<CardView>, Seq<char>> {
    match topic_text {
        None => Ok(cards),
        Some(text) => match resolution(text, separator, available_topics(cards)) {
            Err(message) => Err(message),
            Ok(root) => {
                let candidates = candidates_of(
                    first_seen(card_paths(cards)),
                    grouped(cards),
                    root,
                    include_subtree,
                );
                if candidates.len() == 0 {
                    Err(no_candidates_message())
                } else {
                    Ok(candidates)
                }
            },
        },
    }
}

/// Chooses the cards that a query is answered from.
pub fn select_candidates(
    all_cards: &[Card],
    topic_text: Option<&str>,
    topic_separator: &str,
    include_subtree: bool,
) -> (pool: Result<Vec<Card>, String>)
    ensures
        match pool {
            Ok(cards) => candidate_pool(
                card_views(all_cards@),
                match topic_text {
                    Some(text) => Some(text@),
                    None => None,
                },
                topic_separator@,
                include_subtree,
            ) == Ok::<Seq<CardView>, Seq<char>>(card_views(cards@)),
            Err(message) => candidate_pool(
                card_views(all_cards@),
                match topic_text {
                    Some(text) => Some(text@),
                    None => None,
                },
                topic_separator@,
                include_subtree,
            ) == Err::<Seq<CardView>, Seq<char>>(message@),
        },
{
    match topic_text {
        None => Ok(clone_cards(all_cards)),
        Some(text) => {
            let known_topics = list_available_topics(all_cards);
            match resolve_topic_string(text, topic_separator, known_topics.as_slice()) {
                Err(message) => Err(message),
                Ok(root) => {
                    let topic_index = build_topic_index(all_cards);
                    let candidates = collect_subtree_candidates(
                        &topic_index,
                        &root,
                        include_subtree,
                    );
                    if candidates.len() == 0 {
                        Err("No candidate cards found for the requested topic.".to_owned())
                    } else {
                        Ok(candidates)
                    }
                },
            }
        },
    }
}

} // verus!
