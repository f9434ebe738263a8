use rulebot::order::{insert_path, insert_text, path_less, paths_equal, text_less};
use rulebot::text::{
    char_is_ascii_digit, char_is_whitespace, chars_of, decimal_text,
    join_texts, lines_of, split_text, text_of, text_starts_with, trim,
};

fn strings(items: &[&str]) -> Vec<String> {
    items.iter().map(|s| s.to_string()).collect()
}

#[test]
fn whitespace_is_what_the_standard_library_says() {
    for code in 0..=0x10FFFFu32 {
        if let Some(c) = char::from_u32(code) {
            assert_eq!(char_is_whitespace(c), c.is_whitespace(), "code point {:x}", code);
        }
    }
}

#[test]
fn ascii_digits_are_what_the_standard_library_says() {
    for code in 0..=0x10FFFFu32 {
        if let Some(c) = char::from_u32(code) {
            assert_eq!(char_is_ascii_digit(c), c.is_ascii_digit());
        }
    }
}

#[test]
fn trim_is_what_the_standard_library_does() {
    for text in ["", " ", "a", "  a b  ", "\t\n x \r\n", "\u{3000}x\u{a0}", "x\u{200b}", " \u{85} "] {
        assert_eq!(trim(text), text.trim());
    }
    assert_eq!(trim("  a b  "), "a b");
}

#[test]
fn split_is_what_the_standard_library_does() {
    let cases = [
        ("", "::"),
        ("a", "::"),
        ("a::b", "::"),
        ("::a::", "::"),
        ("a:::b", "::"),
        ("a::::b", "::"),
        ("aaa", "aa"),
        ("aaaa", "aa"),
        ("abc", ""),
        ("", ""),
        ("é→ü", ""),
        ("a\tb\t\tc", "\t"),
        ("x", "xyz"),
        ("xyz", "xyz"),
        ("ababab", "aba"),
    ];
    for (text, separator) in cases {
        let expected: Vec<String> = text.split(separator).map(|s| s.to_string()).collect();
        assert_eq!(split_text(text, separator), expected, "{:?} by {:?}", text, separator);
    }
    assert_eq!(split_text("a:::b", "::"), strings(&["a", ":b"]));
    assert_eq!(split_text("abc", ""), strings(&["", "a", "b", "c", ""]));
}

#[test]
fn lines_are_what_the_standard_library_gives() {
    for text in ["", "a", "a\n", "a\nb", "a\r\nb\r\n", "\n", "\n\n", "a\r", "a\r\n\r", "\r\n", "a\n\rb", "x\r\r\ny"] {
        let expected: Vec<String> = text.lines().map(|s| s.to_string()).collect();
        assert_eq!(lines_of(text), expected, "{:?}", text);
    }
    assert_eq!(lines_of("a\r\nb\n\nc"), strings(&["a", "b", "", "c"]));
}

#[test]
fn join_puts_the_separator_between() {
    assert_eq!(join_texts(&strings(&[]), "::"), "");
    assert_eq!(join_texts(&strings(&["a"]), "::"), "a");
    assert_eq!(join_texts(&strings(&["a", "b", "c"]), "::"), "a::b::c");
    assert_eq!(join_texts(&strings(&["", ""]), "-"), "-");
}

#[test]
fn prefix_of_a_text() {
    assert!(text_starts_with("abc", ""));
    assert!(text_starts_with("abc", "ab"));
    assert!(text_starts_with("abc", "abc"));
    assert!(!text_starts_with("abc", "abcd"));
    assert!(!text_starts_with("abc", "b"));
    assert!(text_starts_with("", ""));
}

#[test]
fn decimal_digits_of_a_number() {
    assert_eq!(decimal_text(0), "0");
    assert_eq!(decimal_text(7), "7");
    assert_eq!(decimal_text(10), "10");
    assert_eq!(decimal_text(1234567890), "1234567890");
    assert_eq!(decimal_text(usize::MAX), usize::MAX.to_string());
}

#[test]
fn characters_of_a_text_and_back() {
    let chars = chars_of("aé東");
    assert_eq!(chars, vec!['a', 'é', '東']);
    assert_eq!(text_of(&chars), "aé東");
}

#[test]
fn texts_are_ordered_as_the_standard_library_orders_strings() {
    let samples = ["", "a", "A", "ab", "b", "aa", "é", "z", "東", "\u{10000}", "\u{ffff}", "a\u{0}"];
    for x in samples {
        for y in samples {
            assert_eq!(text_less(x, y), x < y, "{:?} < {:?}", x, y);
        }
    }
}

#[test]
fn paths_are_ordered_as_the_standard_library_orders_lists() {
    let samples = [
        strings(&[]),
        strings(&["a"]),
        strings(&["a", "b"]),
        strings(&["a b"]),
        strings(&["ab"]),
        strings(&["b"]),
        strings(&["", "z"]),
    ];
    for x in &samples {
        for y in &samples {
            assert_eq!(path_less(x, y), x < y, "{:?} < {:?}", x, y);
            assert_eq!(paths_equal(x, y), x == y);
        }
    }
}

#[test]
fn insertion_keeps_order_and_drops_repeats() {
    let mut sorted: Vec<String> = Vec::new();
    for word in ["m", "a", "z", "m", "b", "a"] {
        insert_text(&mut sorted, word.to_string());
    }
    assert_eq!(sorted, strings(&["a", "b", "m", "z"]));
    let mut paths: Vec<Vec<String>> = Vec::new();
    for p in [strings(&["b"]), strings(&["a", "c"]), strings(&["a"]), strings(&["b"])] {
        insert_path(&mut paths, p);
    }
    assert_eq!(paths, vec![strings(&["a"]), strings(&["a", "c"]), strings(&["b"])]);
}
