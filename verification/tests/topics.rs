use rulebot::data_model::Card;
use rulebot::topics::{
    build_topic_index, collect_subtree_candidates, list_available_topics, path_starts_with,
    resolve_topic_string, select_candidates, suggest_topics,
};

fn card_with_path(segments: &[&str]) -> Card {
    Card {
        guid: "g".to_string(),
        question_text: "q".to_string(),
        answer_raw: "a".to_string(),
        deck_path: segments.iter().map(|s| s.to_string()).collect(),
    }
}

fn named_card(guid: &str, segments: &[&str]) -> Card {
    Card {
        guid: guid.to_string(),
        question_text: "q".to_string(),
        answer_raw: "a".to_string(),
        deck_path: segments.iter().map(|s| s.to_string()).collect(),
    }
}

fn path(segments: &[&str]) -> Vec<String> {
    segments.iter().map(|s| s.to_string()).collect()
}

fn guids(cards: &[Card]) -> Vec<String> {
    cards.iter().map(|c| c.guid.clone()).collect()
}

#[test]
fn test_build_and_collect() {
    let cards = vec![
        card_with_path(&["A", "B"]),
        card_with_path(&["A", "B", "C"]),
        card_with_path(&["A", "D"]),
        card_with_path(&["X"]),
    ];
    let index = build_topic_index(&cards);

    let exact = collect_subtree_candidates(&index, &vec!["A".into(), "B".into()], false);
    assert_eq!(exact.len(), 1);

    let sub = collect_subtree_candidates(&index, &vec!["A".into()], true);
    assert_eq!(sub.len(), 3);
}

#[test]
fn test_resolve_topic_string() {
    let known = vec![
        vec!["A".into(), "B".into()],
        vec!["A".into(), "D".into()],
        vec!["X".into()],
    ];
    let resolved = resolve_topic_string("A::B", "::", &known).expect("should resolve");
    assert_eq!(resolved, vec!["A".to_string(), "B".to_string()]);
}

#[test]
fn index_groups_cards_in_order_of_first_appearance() {
    let cards = vec![
        named_card("1", &["A", "B"]),
        named_card("2", &["X"]),
        named_card("3", &["A", "B"]),
        named_card("4", &["A"]),
        named_card("5", &[]),
    ];
    let index = build_topic_index(&cards);
    assert_eq!(index.len(), 4);
    let exact = collect_subtree_candidates(&index, &path(&["A", "B"]), false);
    assert_eq!(guids(&exact), vec!["1", "3"]);
    let below_a = collect_subtree_candidates(&index, &path(&["A"]), true);
    assert_eq!(guids(&below_a), vec!["1", "3", "4"]);
    let everything = collect_subtree_candidates(&index, &path(&[]), true);
    assert_eq!(guids(&everything), vec!["1", "3", "2", "4", "5"]);
    let untopiced = collect_subtree_candidates(&index, &path(&[]), false);
    assert_eq!(guids(&untopiced), vec!["5"]);
}

#[test]
fn collect_of_an_unknown_topic_is_empty() {
    let cards = vec![named_card("1", &["A", "B"])];
    let index = build_topic_index(&cards);
    assert!(collect_subtree_candidates(&index, &path(&["B"]), false).is_empty());
    assert!(collect_subtree_candidates(&index, &path(&["B"]), true).is_empty());
    assert!(collect_subtree_candidates(&index, &path(&["A"]), false).is_empty());
    assert!(collect_subtree_candidates(&index, &path(&["A", "B", "C"]), true).is_empty());
}

#[test]
fn prefix_is_by_whole_segments() {
    assert!(path_starts_with(&path(&["A", "B"]), &path(&["A"])));
    assert!(path_starts_with(&path(&["A", "B"]), &path(&["A", "B"])));
    assert!(path_starts_with(&path(&["A", "B"]), &path(&[])));
    assert!(!path_starts_with(&path(&["AB"]), &path(&["A"])));
    assert!(!path_starts_with(&path(&["A"]), &path(&["A", "B"])));
    assert!(!path_starts_with(&path(&["A", "B"]), &path(&["B"])));
}

#[test]
fn available_topics_are_sorted_and_distinct() {
    let cards = vec![
        named_card("1", &["b"]),
        named_card("2", &["a", "z"]),
        named_card("3", &[]),
        named_card("4", &["a"]),
        named_card("5", &["b"]),
        named_card("6", &["B"]),
        named_card("7", &["a", "b"]),
    ];
    let topics = list_available_topics(&cards);
    assert_eq!(
        topics,
        vec![path(&["B"]), path(&["a"]), path(&["a", "b"]), path(&["a", "z"]), path(&["b"])]
    );
    let mut expected: Vec<Vec<String>> =
        cards.iter().map(|c| c.deck_path.clone()).filter(|p| !p.is_empty()).collect();
    expected.sort();
    expected.dedup();
    assert_eq!(topics, expected);
}

#[test]
fn segments_of_a_topic_are_trimmed() {
    let known = vec![path(&["A", "B"])];
    assert_eq!(resolve_topic_string("  A ::  B ", "::", &known), Ok(path(&["A", "B"])));
    assert_eq!(resolve_topic_string("A/B", "/", &known), Ok(path(&["A", "B"])));
}

#[test]
fn blank_topic_is_refused() {
    let known = vec![path(&["A"])];
    let message = "Topic cannot be empty; provide a valid deck path.".to_string();
    assert_eq!(resolve_topic_string("", "::", &known), Err(message.clone()));
    assert_eq!(resolve_topic_string("  \t ", "::", &known), Err(message));
}

#[test]
fn unknown_topic_suggests_topics_with_the_same_start() {
    let known = vec![
        path(&["Maths", "Algebra"]),
        path(&["Maths"]),
        path(&["Music"]),
        path(&["Art"]),
    ];
    let answer = resolve_topic_string("Maths::Geometry", "::", &known);
    assert_eq!(
        answer,
        Err("Unknown topic: \"Maths::Geometry\"\nDid you mean one of:\n- Maths\n- Maths::Algebra"
            .to_string())
    );
}

#[test]
fn unknown_topic_falls_back_to_the_first_five_topics() {
    let known = vec![
        path(&["g"]),
        path(&["f"]),
        path(&["e"]),
        path(&["d"]),
        path(&["c"]),
        path(&["b"]),
        path(&["a"]),
    ];
    let answer = resolve_topic_string("zzz", "::", &known);
    assert_eq!(
        answer,
        Err("Unknown topic: \"zzz\"\nDid you mean one of:\n- a\n- b\n- c\n- d\n- e".to_string())
    );
}

#[test]
fn at_most_five_suggestions_are_given() {
    let known = vec![
        path(&["a7"]),
        path(&["a6"]),
        path(&["a5"]),
        path(&["a4"]),
        path(&["a3"]),
        path(&["a2"]),
        path(&["a1"]),
        path(&["b"]),
    ];
    assert_eq!(suggest_topics("a", "::", &known), vec!["a1", "a2", "a3", "a4", "a5"]);
    assert_eq!(suggest_topics("b", "::", &known), vec!["b"]);
    assert_eq!(suggest_topics("", "::", &known), vec!["a1", "a2", "a3", "a4", "a5"]);
}

#[test]
fn unknown_topic_without_known_topics() {
    let known: Vec<Vec<String>> = Vec::new();
    assert_eq!(
        resolve_topic_string("A", "::", &known),
        Err("Unknown topic: \"A\"\nNo topics available.".to_string())
    );
}

#[test]
fn suggestions_are_ordered_as_texts() {
    // As texts "A::B" comes before "A B", though as paths ["A B"] comes first.
    let known = vec![path(&["A B"]), path(&["A", "B"])];
    assert_eq!(suggest_topics("A", "::", &known), vec!["A B", "A::B"]);
    let known = vec![path(&["A", "B"]), path(&["A!"])];
    assert_eq!(suggest_topics("A", "::", &known), vec!["A!", "A::B"]);
}

#[test]
fn pool_without_topic_is_all_cards() {
    let cards = vec![named_card("1", &["A"]), named_card("2", &[])];
    let pool = select_candidates(&cards, None, "::", true).expect("all cards");
    assert_eq!(guids(&pool), vec!["1", "2"]);
}

#[test]
fn pool_of_a_topic() {
    let cards = vec![
        named_card("1", &["A", "B"]),
        named_card("2", &["A"]),
        named_card("3", &["X"]),
    ];
    let pool = select_candidates(&cards, Some("A"), "::", true).expect("known topic");
    assert_eq!(guids(&pool), vec!["1", "2"]);
    let pool = select_candidates(&cards, Some("A"), "::", false).expect("known topic");
    assert_eq!(guids(&pool), vec!["2"]);
    let refused = select_candidates(&cards, Some("B"), "::", true);
    assert_eq!(
        refused.map(|cards| cards.len()),
        Err("Unknown topic: \"B\"\nDid you mean one of:\n- A\n- A::B\n- X".to_string())
    );
}
