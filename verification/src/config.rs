//! The options that steer tokenisation and topic selection.

use vstd::prelude::*;
use crate::text::{
    lines, lines_of, lowercased, text_starts_with, texts, to_lowercase, trim, trimmed,
};
use crate::token_set::TokenSet;

verus! {

/// The recognised options. Only `min_token_length` and `remove_stopwords`
/// affect the tokeniser; `topic_separator` and `include_subtree` affect topic
/// selection.
#[derive(Debug, Clone)]
pub struct ParserConfig {
    pub split_on_non_alnum: bool,
    pub keep_digits: bool,
    pub min_token_length: usize,
    pub remove_stopwords: bool,
    pub stopwords_path: Option<String>,
    pub topic_separator: String,
    pub include_subtree: bool,
    pub idf_smoothing: bool,
}

/// Words are split at characters that are neither letters nor digits.
pub fn default_split_on_non_alnum() -> (value: bool)
    ensures
        value,
{
    true
}

/// Digits are kept in tokens.
pub fn default_keep_digits() -> (value: bool)
    ensures
        value,
{
    true
}

/// A token has at least two characters, unless it is a number.
pub fn default_min_token_length() -> (value: usize)
    ensures
        value == 2,
{
    2
}

/// Stopwords are removed.
pub fn default_remove_stopwords() -> (value: bool)
    ensures
        value,
{
    true
}

/// The segments of a topic path are separated by `::`.
pub fn default_topic_separator() -> (value: String)
    ensures
        value@ == "::"@,
{
    "::".to_owned()
}

/// A topic includes the topics below it.
pub fn default_include_subtree() -> (value: bool)
    ensures
        value,
{
    true
}

/// Inverse document frequencies are smoothed.
pub fn default_idf_smoothing() -> (value: bool)
    ensures
        value,
{
    true
}

/// Whether the options ask for stopword removal without naming a stopword
/// file: such options are refused.
pub open spec fn lacks_stopwords_path(config: ParserConfig) -> bool {
    config.remove_stopwords && match config.stopwords_path {
        Some(path) => path@.len() == 0,
        None => true,
    }
}

/// Whether the options ask for stopword removal without naming a stopword
/// file.
pub fn missing_stopwords_path(config: &ParserConfig) -> (missing: bool)
    ensures
        missing == lacks_stopwords_path(*config),
{
    config.remove_stopwords && match &config.stopwords_path {
        Some(path) => path.as_str().is_empty(),
        None => true,
    }
}

/// Whether a line of a stopword file holds a stopword: it is not blank and
/// is no comment.
pub open spec fn holds_stopword(line: Seq<char>) -> bool {
    trimmed(line).len() > 0 && trimmed(line)[0] != '#'
}

/// The stopword that a line holds.
pub open spec fn stopword_of(line: Seq<char>) -> Seq<char> {
    lowercased(trimmed(line))
}

/// The stopwords of a stopword file's text: one for each line that is
/// neither blank nor a comment, trimmed and in lowercase.
pub open spec fn stopwords_of(content: Seq<char>) -> Set<Seq<char>> {
    lines(content).filter(|line: Seq<char>| holds_stopword(line)).map_values(
        |line: Seq<char>| stopword_of(line),
    ).to_set()
}

/// Reads the stopwords from the text of a stopword file.
pub fn parse_stopwords(content: &str) -> (stopwords: TokenSet)
    ensures
        stopwords@ == stopwords_of(content@),
{
    let all_lines = lines_of(content);
    let ghost all = texts(all_lines@);
    let ghost holds = |line: Seq<char>| holds_stopword(line);
    let ghost word = |line: Seq<char>| stopword_of(line);
    let mut stopwords = TokenSet::new();
    let mut i: usize = 0;
    while i < all_lines.len()
        invariant
            i <= all_lines.len(),
            all == texts(all_lines@),
            holds == |line: Seq<char>| holds_stopword(line),
            word == |line: Seq<char>| stopword_of(line),
            stopwords@ == all.take(i as int).filter(holds).map_values(word).to_set(),
        decreases all_lines.len() - i,
    {
        let trimmed_line = trim(all_lines[i].as_str());
        let comment = text_starts_with(trimmed_line.as_str(), "#");
        proof {
            reveal_strlit("#");
            let line = all[i as int];
            assert(all.take(i + 1) =~= all.take(i as int).push(line));
            all.take(i as int).lemma_filter_push(line, holds);
            let kept = all.take(i as int).filter(holds);
            assert(kept.push(line).map_values(word) =~= kept.map_values(word).push(word(line)));
            kept.map_values(word).lemma_push_to_set_commute(word(line));
            if trimmed(line).len() > 0 {
                assert(trimmed(line).take(1) =~= seq![trimmed(line)[0]]);
                assert("#"@ =~= seq!['#']);
                if comment {
                    assert(trimmed(line).take(1)[0] == '#');
                }
            }
        }
        if !trimmed_line.as_str().is_empty() && !comment {
            stopwords.insert(to_lowercase(trimmed_line.as_str()));
        }
        i += 1;
    }
    assert(all.take(all_lines.len() as int) =~= all);
    stopwords
}

} // verus!
