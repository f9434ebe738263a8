use rulebot::config::{
    default_idf_smoothing, default_include_subtree, default_keep_digits, default_min_token_length,
    default_remove_stopwords, default_split_on_non_alnum, default_topic_separator,
    missing_stopwords_path, parse_stopwords, ParserConfig,
};
use rulebot::data_model::{
    build_guid_index, clone_card, deck_path_to_string, make_hit, short_preview, Card, InvalidRecord,
    QueryRequest,
};
use rulebot::decks::{load_decks, log_invalid_records, parse_deck_line, parse_deck_text, DeckLine, DeckSource};
use rulebot::normalise::{
    decode_basic_entities, decode_entity, escape_angle_brackets, normalise_for_display,
    normalise_for_matching, strip_html_tags,
};
use rulebot::timing::Stopwatch;

fn chars(text: &str) -> Vec<char> {
    text.chars().collect()
}

#[test]
fn tags_are_removed() {
    assert_eq!(strip_html_tags("<b>bold</b> and <i class=\"x\">it</i>"), "bold and it");
    assert_eq!(strip_html_tags("a < b and c > d"), "a  d");
    assert_eq!(strip_html_tags("a > b"), "a  b");
    assert_eq!(strip_html_tags("open <never closed"), "open ");
    assert_eq!(strip_html_tags("<<a>>b"), "b");
    assert_eq!(strip_html_tags(""), "");
}

#[test]
fn angle_brackets_are_escaped() {
    assert_eq!(escape_angle_brackets("<b>x</b> & y"), "&lt;b&gt;x&lt;/b&gt; & y");
    assert_eq!(escape_angle_brackets(""), "");
    assert_eq!(normalise_for_display("  <p> hi </p>\n"), "&lt;p&gt; hi &lt;/p&gt;");
}

#[test]
fn named_entities_are_decoded() {
    assert_eq!(decode_basic_entities("a &amp; b &lt;c&gt; &quot;d&quot;"), "a & b <c> \"d\"");
    assert_eq!(decode_basic_entities("&nbsp;&copy;"), "&nbsp;&copy;");
    assert_eq!(decode_basic_entities("&AMP;"), "&AMP;");
    assert_eq!(decode_basic_entities("&;"), "&;");
    assert_eq!(decode_basic_entities("no entity"), "no entity");
}

#[test]
fn numeric_entities_are_decoded() {
    assert_eq!(decode_basic_entities("&#39;&#65;&#x41;&#X42;&#x1F600;&#+67;&#x+44;"), "'AAB😀CD");
    assert_eq!(decode_basic_entities("&#0;"), "\0");
    assert_eq!(decode_basic_entities("&#1114111;"), "\u{10FFFF}");
    assert_eq!(decode_basic_entities("&#x00041;"), "A");
}

#[test]
fn entities_that_name_no_character_stay() {
    for text in [
        "&#1114112;",
        "&#55296;",
        "&#xD800;",
        "&#xDFFF;",
        "&#x110000;",
        "&#4294967296;",
        "&#99999999999999999999;",
        "&#xFFFFFFFFF;",
        "&#;",
        "&#x;",
        "&#+;",
        "&#-1;",
        "&#1 ;",
        "&#12a;",
        "&#xg;",
        "&#++1;",
        "&#+x41;",
    ] {
        assert_eq!(decode_basic_entities(text), text);
    }
    assert_eq!(decode_basic_entities("&#xE000;"), "\u{E000}");
    assert_eq!(decode_basic_entities("&#xD7FF;"), "\u{D7FF}");
    assert_eq!(decode_basic_entities("&#4294967295;"), "&#4294967295;");
}

#[test]
fn entity_numbers_are_read_as_the_standard_library_reads_them() {
    for digits in ["", "+", "-", "0", "+0", "007", "65", "+65", "-65", "4294967295", "4294967296", "1_0", " 1", "1 ", "x41", "٣"] {
        let name = format!("#{}", digits);
        let expected = digits.parse::<u32>().ok().and_then(char::from_u32);
        if expected.is_some() || !(digits.starts_with('x') || digits.starts_with('X')) {
            assert_eq!(decode_entity(&chars(&name)), expected, "{:?}", name);
        }
    }
    for digits in ["", "+", "41", "+41", "fF", "g", "10FFFF", "110000", "FFFFFFFF", "100000000", "-1", "0x41"] {
        let name = format!("#x{}", digits);
        let expected = u32::from_str_radix(digits, 16).ok().and_then(char::from_u32);
        assert_eq!(decode_entity(&chars(&name)), expected, "{:?}", name);
    }
    assert_eq!(decode_entity(&chars("amp")), Some('&'));
    assert_eq!(decode_entity(&chars("lt")), Some('<'));
    assert_eq!(decode_entity(&chars("gt")), Some('>'));
    assert_eq!(decode_entity(&chars("quot")), Some('"'));
    assert_eq!(decode_entity(&chars("apos")), None);
    assert_eq!(decode_entity(&chars("")), None);
}

#[test]
fn an_ampersand_starts_an_entity_anew() {
    assert_eq!(decode_basic_entities("a &am&amp; b"), "a & b");
    assert_eq!(decode_basic_entities("x && y"), "x & y");
    assert_eq!(decode_basic_entities("fish & chips; more"), "fish & chips; more");
    assert_eq!(decode_basic_entities("tail &amp"), "tail &amp");
    assert_eq!(decode_basic_entities("tail &"), "tail &");
    assert_eq!(decode_basic_entities("&lt;&"), "<&");
}

#[test]
fn text_for_matching_is_cleaned_lowered_and_trimmed() {
    assert_eq!(normalise_for_matching("  <p>What is <b>AI</b> &amp; ML?</p> "), "what is ai & ml?");
    assert_eq!(normalise_for_matching("ÀÉÎ Σ"), "àéî σ");
    assert_eq!(normalise_for_matching("&lt;TAG&gt;"), "<tag>");
    assert_eq!(normalise_for_matching(""), "");
}

#[test]
fn defaults_of_the_options() {
    assert!(default_split_on_non_alnum());
    assert!(default_keep_digits());
    assert_eq!(default_min_token_length(), 2);
    assert!(default_remove_stopwords());
    assert_eq!(default_topic_separator(), "::");
    assert!(default_include_subtree());
    assert!(default_idf_smoothing());
}

#[test]
fn stopword_removal_needs_a_stopword_file() {
    let mut config = ParserConfig {
        split_on_non_alnum: true,
        keep_digits: true,
        min_token_length: 2,
        remove_stopwords: true,
        stopwords_path: None,
        topic_separator: "::".to_string(),
        include_subtree: true,
        idf_smoothing: true,
    };
    assert!(missing_stopwords_path(&config));
    config.stopwords_path = Some(String::new());
    assert!(missing_stopwords_path(&config));
    config.stopwords_path = Some("stop.txt".to_string());
    assert!(!missing_stopwords_path(&config));
    config.stopwords_path = None;
    config.remove_stopwords = false;
    assert!(!missing_stopwords_path(&config));
}

#[test]
fn stopwords_are_read_line_by_line() {
    let set = parse_stopwords("# comment\nThe\n  AND \n\n   \n  # another\nof\r\nthe\nÉTÉ");
    let mut members = set.to_vec();
    members.sort();
    assert_eq!(members, vec!["and", "of", "the", "été"]);
    assert!(parse_stopwords("").is_empty());
    assert!(parse_stopwords("#only\n\n").is_empty());
}

#[test]
fn topic_path_as_one_text() {
    assert_eq!(deck_path_to_string(&vec!["A".to_string(), "B".to_string()]), "A::B");
    assert_eq!(deck_path_to_string(&Vec::new()), "");
}

#[test]
fn previews_are_cut_with_an_ellipsis() {
    assert_eq!(short_preview("hello", 10), "hello");
    assert_eq!(short_preview("hello", 5), "hello");
    assert_eq!(short_preview("hello", 4), "hel…");
    assert_eq!(short_preview("hello", 2), "h…");
    assert_eq!(short_preview("hello", 1), "…");
    assert_eq!(short_preview("hello", 0), "…");
    assert_eq!(short_preview("", 0), "");
    assert_eq!(short_preview("héllo", 4), "hé…");
    assert_eq!(short_preview("héllo", 6), "héllo");
}

#[test]
fn cards_by_identifier() {
    let card = |guid: &str, question: &str| Card {
        guid: guid.to_string(),
        question_text: question.to_string(),
        answer_raw: "a".to_string(),
        deck_path: Vec::new(),
    };
    let index = build_guid_index(&[card("g1", "first"), card("g2", "second"), card("g1", "third")]);
    assert_eq!(index.len(), 2);
    assert_eq!(index.get(&"g1".to_string()).map(|c| c.question_text.clone()), Some("third".to_string()));
    assert_eq!(index.get(&"g2".to_string()).map(|c| c.question_text.clone()), Some("second".to_string()));
    assert!(index.get(&"g3".to_string()).is_none());
    let copy = clone_card(&card("g9", "q"));
    assert_eq!((copy.guid.as_str(), copy.question_text.as_str()), ("g9", "q"));
}

#[test]
fn hits_and_requests_hold_their_parts() {
    let hit = make_hit("g".to_string(), vec!["A".to_string()], Some("q".to_string()), 3);
    assert_eq!(hit.guid, "g");
    assert_eq!(hit.deck_path, vec!["A"]);
    assert_eq!(hit.question_preview, Some("q".to_string()));
    assert_eq!(hit.score, 3);
    let request = QueryRequest {
        query_text: "q".to_string(),
        topic_text: "t".to_string(),
        algorithm_name: "keyword".to_string(),
        top_k: 1,
    };
    assert_eq!(request.clone().top_k, 1);
}

#[test]
fn lines_of_a_deck_file() {
    match parse_deck_line("g1\tBasic\tMaths::Algebra \t <b>What</b> is X?\t 42 \textra") {
        DeckLine::Valid(card) => {
            assert_eq!(card.guid, "g1");
            assert_eq!(card.deck_path, vec!["Maths", "Algebra"]);
            assert_eq!(card.question_text, "what is x?");
            assert_eq!(card.answer_raw, "42");
        }
        other => panic!("{:?}", other),
    }
    match parse_deck_line("g2\tBasic\t\tQ\t<i>A</i>") {
        DeckLine::Valid(card) => {
            assert!(card.deck_path.is_empty());
            assert_eq!(card.answer_raw, "<i>A</i>");
        }
        other => panic!("{:?}", other),
    }
    assert!(matches!(parse_deck_line(""), DeckLine::Skipped));
    assert!(matches!(parse_deck_line("#separator:tab"), DeckLine::Skipped));
    match parse_deck_line("a\tb\tc") {
        DeckLine::Invalid(reason) => assert_eq!(reason, "Expected at least 5 columns, found 3"),
        other => panic!("{:?}", other),
    }
    match parse_deck_line(" \tBasic\tT\tQ\tA") {
        DeckLine::Invalid(reason) => assert_eq!(reason, "Empty GUID"),
        other => panic!("{:?}", other),
    }
    match parse_deck_line("g\tBasic\tT\t \tA") {
        DeckLine::Invalid(reason) => assert_eq!(reason, "Empty question or answer"),
        other => panic!("{:?}", other),
    }
    match parse_deck_line("g\tBasic\tT\tQ\t") {
        DeckLine::Invalid(reason) => assert_eq!(reason, "Empty question or answer"),
        other => panic!("{:?}", other),
    }
    match parse_deck_line(" #not a comment") {
        DeckLine::Invalid(reason) => assert_eq!(reason, "Expected at least 5 columns, found 1"),
        other => panic!("{:?}", other),
    }
}

fn summary(records: &[InvalidRecord]) -> Vec<(String, usize, String, String)> {
    records
        .iter()
        .map(|r| (r.file_path.clone(), r.line_number, r.reason.clone(), r.raw_line.clone()))
        .collect()
}

#[test]
fn text_of_a_deck_file() {
    let content = "#separator:tab\r\ng1\tBasic\tA::B\tQ one\tA one\r\n\r\nbroken line\ng2\tBasic\t\tQ two\tA two";
    let (cards, invalid) = parse_deck_text("decks/a.txt", content);
    let guids: Vec<&str> = cards.iter().map(|c| c.guid.as_str()).collect();
    assert_eq!(guids, vec!["g1", "g2"]);
    assert_eq!(cards[0].question_text, "q one");
    assert_eq!(
        summary(&invalid),
        vec![(
            "decks/a.txt".to_string(),
            4,
            "Expected at least 5 columns, found 1".to_string(),
            "broken line".to_string()
        )]
    );
}

#[test]
fn decks_of_several_files() {
    let sources = vec![
        DeckSource { file_path: "a.txt".to_string(), content: Ok("g1\tB\tT\tQ\tA\nbad".to_string()) },
        DeckSource { file_path: "b.txt".to_string(), content: Err("permission denied".to_string()) },
        DeckSource { file_path: "c.txt".to_string(), content: Ok("g2\tB\tT\tQ\tA".to_string()) },
    ];
    let (cards, invalid) = load_decks(&sources);
    let guids: Vec<&str> = cards.iter().map(|c| c.guid.as_str()).collect();
    assert_eq!(guids, vec!["g1", "g2"]);
    assert_eq!(
        summary(&invalid),
        vec![
            ("a.txt".to_string(), 2, "Expected at least 5 columns, found 1".to_string(), "bad".to_string()),
            ("b.txt".to_string(), 0, "Unreadable file: permission denied".to_string(), String::new()),
        ]
    );
    let (cards, invalid) = load_decks(&[]);
    assert!(cards.is_empty() && invalid.is_empty());
}

#[test]
fn log_entries_of_refused_lines() {
    let records = vec![
        InvalidRecord {
            file_path: "a.txt".to_string(),
            line_number: 12,
            reason: "Empty GUID".to_string(),
            raw_line: "\tx\ty\tz\tw".to_string(),
        },
        InvalidRecord {
            file_path: "b.txt".to_string(),
            line_number: 0,
            reason: "Unreadable file: gone".to_string(),
            raw_line: String::new(),
        },
    ];
    assert_eq!(
        log_invalid_records(&records),
        vec!["a.txt:12  Empty GUID\n\tx\ty\tz\tw", "b.txt:0  Unreadable file: gone\n"]
    );
    assert!(log_invalid_records(&[]).is_empty());
}

#[test]
fn stopwatch_runs_between_start_and_stop() {
    let mut stopwatch = Stopwatch::new();
    assert!(!stopwatch.is_running());
    assert!(stopwatch.stop().is_none());
    stopwatch.start();
    assert!(stopwatch.is_running());
    assert!(stopwatch.stop().is_some());
    assert!(!stopwatch.is_running());
    assert!(stopwatch.stop().is_none());
    stopwatch.start();
    stopwatch.reset();
    assert!(!stopwatch.is_running());
}
