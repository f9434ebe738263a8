use rulebot::config::ParserConfig;
use rulebot::token_set::TokenSet;
use rulebot::tokenise::{
    classified_chars, token_is_numeric, tokenise, tokenise_classified, tokenise_to_set,
};

fn options(min_token_length: usize, remove_stopwords: bool) -> ParserConfig {
    ParserConfig {
        split_on_non_alnum: true,
        keep_digits: true,
        min_token_length,
        remove_stopwords,
        stopwords_path: None,
        topic_separator: "::".to_string(),
        include_subtree: true,
        idf_smoothing: true,
    }
}

fn stopwords(words: &[&str]) -> TokenSet {
    let mut set = TokenSet::new();
    for word in words {
        set.insert(word.to_string());
    }
    set
}

#[test]
fn tokens_of_a_short_sentence() {
    let tokens = tokenise("AI, and ML!", &TokenSet::new(), &options(2, false));
    assert_eq!(tokens, vec!["ai", "and", "ml"]);
}

#[test]
fn short_tokens_are_dropped_unless_numeric() {
    let tokens = tokenise("a 7 bb 42 c3 x", &TokenSet::new(), &options(2, false));
    assert_eq!(tokens, vec!["7", "bb", "42", "c3"]);
    let tokens = tokenise("abc 12 1234 ab1", &TokenSet::new(), &options(4, false));
    assert_eq!(tokens, vec!["12", "1234"]);
}

#[test]
fn every_token_meets_the_length_rule() {
    let text = "The 3 quick brown foxes, 12 of them, jumped over 7 lazy dogs at 9am";
    for min_length in 0..6 {
        for token in tokenise(text, &TokenSet::new(), &options(min_length, false)) {
            assert!(token.chars().count() >= min_length || token_is_numeric(&token));
        }
    }
}

#[test]
fn stopwords_are_dropped_when_asked() {
    let stop = stopwords(&["and", "the"]);
    assert_eq!(tokenise("The cat AND the hat", &stop, &options(2, true)), vec!["cat", "hat"]);
    assert_eq!(
        tokenise("The cat AND the hat", &stop, &options(2, false)),
        vec!["the", "cat", "and", "the", "hat"]
    );
}

#[test]
fn tokenising_twice_gives_the_same() {
    let stop = stopwords(&["of"]);
    let config = options(2, true);
    let text = "Principles of Computer Science, 2nd edition";
    let first = tokenise(text, &stop, &config);
    let second = tokenise(text, &stop, &config);
    assert_eq!(first, second);
    assert_eq!(first, vec!["principles", "computer", "science", "2nd", "edition"]);
}

#[test]
fn every_capital_is_lowered() {
    let tokens = tokenise("ÉCOLE École straße Ünïcode ДОМ", &TokenSet::new(), &options(1, false));
    assert_eq!(tokens, vec!["école", "école", "straße", "ünïcode", "дом"]);
}

#[test]
fn characters_are_lowered_one_by_one() {
    // A capital sigma at the end of a word is lowered like any other.
    let tokens = tokenise("ΟΔΟΣ", &TokenSet::new(), &options(1, false));
    assert_eq!(tokens, vec!["οδοσ"]);
    // The lowercase form of a capital I with a dot has two characters.
    let tokens = tokenise("İstanbul İ", &TokenSet::new(), &options(2, false));
    assert_eq!(tokens, vec!["i\u{307}stanbul", "i\u{307}"]);
}

#[test]
fn a_query_in_capitals_meets_lowered_stopwords() {
    let stop = stopwords(&["été"]);
    assert_eq!(tokenise("ÉTÉ Hiver", &stop, &options(2, true)), vec!["hiver"]);
}

#[test]
fn unicode_letters_and_digits_are_word_characters() {
    let tokens = tokenise("naïve—café ٣٤ 東京.タワー", &TokenSet::new(), &options(1, false));
    assert_eq!(tokens, vec!["naïve", "café", "٣٤", "東京", "タワー"]);
}

#[test]
fn arabic_digits_are_not_numeric() {
    assert!(token_is_numeric("0123456789"));
    assert!(token_is_numeric(""));
    assert!(!token_is_numeric("٣"));
    assert!(!token_is_numeric("12a"));
    let tokens = tokenise("٣ 3", &TokenSet::new(), &options(2, false));
    assert_eq!(tokens, vec!["3"]);
}

#[test]
fn empty_and_separator_only_text_has_no_token() {
    assert!(tokenise("", &TokenSet::new(), &options(1, false)).is_empty());
    assert!(tokenise(" ,;!? \n", &TokenSet::new(), &options(0, false)).is_empty());
}

#[test]
fn classification_decides_the_words() {
    let config = options(1, false);
    let entry = |form: &str, in_word: bool| (form.to_string(), in_word);
    let chars = vec![
        entry("a", true),
        entry("-", true),
        entry("B", true),
        entry(" ", false),
        entry("c", false),
        entry("d", true),
    ];
    assert_eq!(tokenise_classified(&chars, &TokenSet::new(), &config), vec!["a-B", "d"]);
    // A form may have more than one character, or none; a run that spells
    // nothing gives no token.
    let chars = vec![entry("ss", true), entry("", true), entry("x", false), entry("", true)];
    assert_eq!(tokenise_classified(&chars, &TokenSet::new(), &config), vec!["ss"]);
    assert!(tokenise_classified(&Vec::new(), &TokenSet::new(), &config).is_empty());
}

#[test]
fn classes_follow_unicode() {
    let entry = |form: &str, in_word: bool| (form.to_string(), in_word);
    assert_eq!(
        classified_chars("A1 É-٣"),
        vec![
            entry("a", true),
            entry("1", true),
            entry(" ", false),
            entry("é", true),
            entry("-", false),
            entry("٣", true)
        ]
    );
}

#[test]
fn token_set_collapses_duplicates() {
    let set = tokenise_to_set("to be or not to be", &TokenSet::new(), &options(2, false));
    assert_eq!(set.len(), 4);
    for word in ["to", "be", "or", "not"] {
        assert!(set.contains(&word.to_string()));
    }
    assert!(!set.contains(&"To".to_string()));
    let mut members = set.to_vec();
    members.sort();
    assert_eq!(members, vec!["be", "not", "or", "to"]);
}

#[test]
fn token_set_operations() {
    let mut set = TokenSet::new();
    assert!(set.is_empty());
    assert!(set.insert("a".to_string()));
    assert!(!set.insert("a".to_string()));
    assert!(set.insert("b".to_string()));
    assert_eq!(set.len(), 2);
    assert!(!set.is_empty());
    let other = TokenSet::from_tokens(&vec!["b".to_string(), "c".to_string(), "b".to_string()]);
    assert_eq!(other.len(), 2);
    assert_eq!(set.overlap(&other), 1);
    assert_eq!(other.overlap(&set), 1);
    assert_eq!(set.overlap(&TokenSet::new()), 0);
    assert_eq!(set.overlap(&set), 2);
}

#[test]
fn tokenising_the_tokens_again_changes_nothing() {
    let stop = stopwords(&["of", "the"]);
    for min_length in 0..5 {
        for remove in [false, true] {
            let config = options(min_length, remove);
            let text = "The Principles of Computer Science, 2nd ed. (7 of 12): I/O & CPUs";
            let first = tokenise(text, &stop, &config);
            let again = tokenise(&first.join(" "), &stop, &config);
            assert_eq!(again, first);
        }
    }
}

#[test]
fn no_token_is_empty() {
    for token in tokenise("  a,,b  --  c1! ", &TokenSet::new(), &options(0, false)) {
        assert!(!token.is_empty());
    }
    assert_eq!(tokenise("  a,,b  --  c1! ", &TokenSet::new(), &options(0, false)), vec!["a", "b", "c1"]);
}
