//! The tokeniser: maximal runs of alphanumeric characters, each character in
//! its lowercase form, then filtered by length and by a stopword set.

use vstd::prelude::*;
use crate::config::ParserConfig;
use crate::text::{
    char_is_alphanumeric, char_is_ascii_digit, char_to_lowercase, chars_of, is_alphanumeric,
    is_ascii_digit, lowercase_form, push_text, texts,
};
use crate::token_set::TokenSet;

verus! {

/// Each character of `text` as the tokeniser takes it: its Unicode lowercase
/// form, and its class, whether Unicode counts the character as
/// alphanumeric, so that it may be part of a word.
pub open spec fn classify(text: Seq<char>) -> Seq<(Seq<char>, bool)> {
    text.map_values(|c: char| (lowercase_form(c), is_alphanumeric(c)))
}

/// The views of classified characters: the lowercase form of each as a text,
/// with its class.
pub open spec fn class_views(chars: Seq<(String, bool)>) -> Seq<(Seq<char>, bool)> {
    chars.map_values(|p: (String, bool)| (p.0@, p.1))
}

/// The number of word characters at the start of `s`.
pub open spec fn run_len(s: Seq<(Seq<char>, bool)>) -> nat
    decreases s.len(),
{
    if s.len() > 0 && s[0].1 {
        1 + run_len(s.skip(1))
    } else {
        0
    }
}

/// A run is no longer than the sequence that it starts.
pub proof fn lemma_run_len_bound(s: Seq<(Seq<char>, bool)>)
    ensures
        run_len(s) <= s.len(),
    decreases s.len(),
{
    if s.len() > 0 && s[0].1 {
        lemma_run_len_bound(s.skip(1));
    }
}

/// The text that the characters of `s` spell: their lowercase forms, one
/// after the other.
pub open spec fn spelled(s: Seq<(Seq<char>, bool)>) -> Seq<char>
    decreases s.len(),
{
    if s.len() == 0 {
        Seq::empty()
    } else {
        spelled(s.drop_last()) + s.last().0
    }
}

/// The words of `s`: what its maximal runs of word characters spell, in
/// order. A run that spells nothing gives no word.
pub open spec fn words(s: Seq<(Seq<char>, bool)>) -> Seq<Seq<char>>
    decreases s.len(),
{
    if s.len() == 0 {
        Seq::empty()
    } else if !s[0].1 {
        words(s.skip(1))
    } else {
        proof {
            lemma_run_len_bound(s);
        }
        let word = spelled(s.take(run_len(s) as int));
        if word.len() > 0 {
            seq![word] + words(s.skip(run_len(s) as int))
        } else {
            words(s.skip(run_len(s) as int))
        }
    }
}

/// Whether every character of `token` is a decimal digit.
pub open spec fn is_numeric(token: Seq<char>) -> bool {
    forall|i: int| 0 <= i < token.len() ==> is_ascii_digit(#[trigger] token[i])
}

/// The length rule: a token is long enough, or it is a number.
pub open spec fn meets_length_rule(token: Seq<char>, min_length: nat) -> bool {
    token.len() >= min_length || is_numeric(token)
}

/// Whether the tokeniser keeps `token`.
pub open spec fn keeps(
    token: Seq<char>,
    stopwords: Set<Seq<char>>,
    min_length: nat,
    remove_stopwords: bool,
) -> bool {
    meets_length_rule(token, min_length) && !(remove_stopwords && stopwords.contains(token))
}

/// The tokens of classified characters: their words, without those that the
/// length rule or the stopword set drops.
pub open spec fn tokens_from(
    s: Seq<(Seq<char>, bool)>,
    stopwords: Set<Seq<char>>,
    min_length: nat,
    remove_stopwords: bool,
) -> Seq<Seq<char>> {
    words(s).filter(|t: Seq<char>| keeps(t, stopwords, min_length, remove_stopwords))
}

/// The tokens of `text`, with Unicode's lowercase forms and classes for its
/// characters.
pub open spec fn tokens_of(
    text: Seq<char>,
    stopwords: Set<Seq<char>>,
    min_length: nat,
    remove_stopwords: bool,
) -> Seq<Seq<char>> {
    tokens_from(classify(text), stopwords, min_length, remove_stopwords)
}

/// A run of word characters that ends at the end of `s` or before a character
/// of another kind is the leading run of `s`.
pub proof fn lemma_run_len_is(s: Seq<(Seq<char>, bool)>, n: int)
    requires
        0 <= n <= s.len(),
        forall|k: int| 0 <= k < n ==> (#[trigger] s[k]).1,
        n == s.len() || !s[n].1,
    ensures
        run_len(s) == n,
    decreases n,
{
    if n > 0 {
        assert(s[0].1);
        assert forall|k: int| 0 <= k < n - 1 implies (#[trigger] s.skip(1)[k]).1 by {
            assert(s.skip(1)[k] == s[k + 1]);
        }
        lemma_run_len_is(s.skip(1), n - 1);
    }
}

/// Whether `token` consists of decimal digits only.
pub fn token_is_numeric(token: &str) -> (numeric: bool)
    ensures
        numeric == is_numeric(token@),
{
    let chars = chars_of(token);
    let mut i: usize = 0;
    while i < chars.len()
        invariant
            chars@ == token@,
            i <= chars.len(),
            forall|k: int| 0 <= k < i ==> is_ascii_digit(#[trigger] chars@[k]),
        decreases chars.len() - i,
    {
        if !char_is_ascii_digit(chars[i]) {
            return false;
        }
        i += 1;
    }
    true
}

/// The characters of `text`, each in its lowercase form and with its class.
pub fn classified_chars(text: &str) -> (classified: Vec<(String, bool)>)
    ensures
        class_views(classified@) == classify(text@),
{
    let chars = chars_of(text);
    let mut classified: Vec<(String, bool)> = Vec::new();
    let mut i: usize = 0;
    proof {
        assert(class_views(classified@) =~= classify(text@.take(0)));
    }
    while i < chars.len()
        invariant
            chars@ == text@,
            i <= chars.len(),
            class_views(classified@) == classify(text@.take(i as int)),
        decreases chars.len() - i,
    {
        let c = chars[i];
        let entry = (char_to_lowercase(c), char_is_alphanumeric(c));
        proof {
            assert(classify(text@.take(i + 1)) =~= classify(text@.take(i as int)).push(
                (lowercase_form(c), is_alphanumeric(c)),
            ));
            assert(class_views(classified@.push(entry)) =~= class_views(classified@).push(
                (entry.0@, entry.1),
            ));
        }
        classified.push(entry);
        i += 1;
    }
    proof {
        assert(text@.take(chars.len() as int) =~= text@);
    }
    classified
}

/// The words of `chars`, before any filter.
fn words_of(chars: &Vec<(String, bool)>) -> (found: Vec<String>)
    ensures
        texts(found@) == words(class_views(chars@)),
{
    let ghost s = class_views(chars@);
    let mut found: Vec<String> = Vec::new();
    let mut current = String::new();
    let ghost mut start: int = 0;
    let mut i: usize = 0;
    proof {
        assert(s.skip(0) =~= s);
        assert(texts(found@) + words(s.skip(0)) =~= words(s));
        assert(s.subrange(0, 0) =~= Seq::<(Seq<char>, bool)>::empty());
    }
    while i < chars.len()
        invariant
            s == class_views(chars@),
            0 <= start <= i <= chars.len(),
            forall|k: int| start <= k < i ==> (#[trigger] s[k]).1,
            current@ == spelled(s.subrange(start, i as int)),
            words(s) == texts(found@) + words(s.skip(start)),
        decreases chars.len() - i,
    {
        let in_word = chars[i].1;
        proof {
            assert(s[i as int] == (chars@[i as int].0@, chars@[i as int].1));
        }
        if in_word {
            proof {
                assert(s.subrange(start, i + 1).drop_last() =~= s.subrange(start, i as int));
                assert(s.subrange(start, i + 1).last() == s[i as int]);
            }
            push_text(&mut current, chars[i].0.as_str());
        } else {
            proof {
                let rest = s.skip(start);
                let n = i - start;
                assert(s.skip(i as int).skip(1) =~= s.skip(i + 1));
                assert(!s.skip(i as int)[0].1);
                assert(words(s.skip(i as int)) == words(s.skip(i + 1)));
                if n > 0 {
                    assert forall|k: int| 0 <= k < n implies (#[trigger] rest[k]).1 by {
                        assert(rest[k] == s[start + k]);
                    }
                    assert(rest[n] == s[i as int]);
                    lemma_run_len_is(rest, n);
                    assert(rest[0].1);
                    assert(rest.take(n) =~= s.subrange(start, i as int));
                    assert(rest.skip(n) =~= s.skip(i as int));
                    if current@.len() > 0 {
                        assert(words(rest) == seq![current@] + words(s.skip(i + 1)));
                        assert(texts(found@.push(current)) =~= texts(found@).push(current@));
                        assert(texts(found@) + (seq![current@] + words(s.skip(i + 1))) =~= texts(
                            found@,
                        ).push(current@) + words(s.skip(i + 1)));
                    } else {
                        assert(words(rest) == words(s.skip(i + 1)));
                    }
                } else {
                    assert(current@.len() == 0);
                }
                assert(s.subrange(i + 1, i + 1) =~= Seq::<(Seq<char>, bool)>::empty());
            }
            if !current.as_str().is_empty() {
                found.push(current);
                current = String::new();
            }
            proof {
                start = i + 1;
            }
        }
        i += 1;
    }
    proof {
        let rest = s.skip(start);
        let n = i - start;
        if n > 0 {
            assert forall|k: int| 0 <= k < n implies (#[trigger] rest[k]).1 by {
                assert(rest[k] == s[start + k]);
            }
            lemma_run_len_is(rest, n);
            assert(rest[0].1);
            assert(rest.take(n) =~= s.subrange(start, i as int));
            assert(rest.skip(n) =~= Seq::<(Seq<char>, bool)>::empty());
            assert(words(rest.skip(n)) =~= Seq::<Seq<char>>::empty());
            if current@.len() > 0 {
                assert(words(rest) =~= seq![current@]);
                assert(texts(found@.push(current)) =~= texts(found@).push(current@));
                assert(texts(found@) + seq![current@] =~= texts(found@).push(current@));
            } else {
                assert(words(rest) =~= Seq::<Seq<char>>::empty());
                assert(texts(found@) + words(rest) =~= texts(found@));
            }
        } else {
            assert(current@.len() == 0);
            assert(rest.len() == 0);
            assert(texts(found@) + words(rest) =~= texts(found@));
        }
    }
    if !current.as_str().is_empty() {
        found.push(current);
    }
    found
}

/// Splits classified characters into their tokens, in order. Each entry of
/// `chars` stands for one character: its lowercase form and whether it is a
/// word character. This is the tokeniser for any lowering and any
/// classification of the characters.
pub fn tokenise_classified(
    chars: &Vec<(String, bool)>,
    stopword_set: &TokenSet,
    parser_config: &ParserConfig,
) -> (tokens: Vec<String>)
    ensures
        texts(tokens@) == tokens_from(
            class_views(chars@),
            stopword_set@,
            parser_config.min_token_length as nat,
            parser_config.remove_stopwords,
        ),
{
    let found = words_of(chars);
    let ghost all = texts(found@);
    let ghost keep = |t: Seq<char>|
        keeps(
            t,
            stopword_set@,
            parser_config.min_token_length as nat,
            parser_config.remove_stopwords,
        );
    let mut tokens: Vec<String> = Vec::new();
    let mut i: usize = 0;
    proof {
        reveal(Seq::filter);
        assert(all.take(0).filter(keep) =~= Seq::<Seq<char>>::empty());
        assert(texts(tokens@) =~= Seq::<Seq<char>>::empty());
    }
    while i < found.len()
        invariant
            i <= found.len(),
            all == texts(found@),
            keep == |t: Seq<char>|
                keeps(
                    t,
                    stopword_set@,
                    parser_config.min_token_length as nat,
                    parser_config.remove_stopwords,
                ),
            texts(tokens@) == all.take(i as int).filter(keep),
        decreases found.len() - i,
    {
        let token = &found[i];
        let length = chars_of(token.as_str()).len();
        let long_enough = length >= parser_config.min_token_length || token_is_numeric(
            token.as_str(),
        );
        let dropped = !long_enough || (parser_config.remove_stopwords && stopword_set.contains(
            token,
        ));
        proof {
            assert(all.take(i + 1) =~= all.take(i as int).push(token@));
            all.take(i as int).lemma_filter_push(token@, keep);
            assert(dropped == !keep(token@));
            if !dropped {
                assert(texts(tokens@.push(*token)) =~= texts(tokens@).push(token@));
            }
        }
        if !dropped {
            tokens.push(token.clone());
        }
        i += 1;
    }
    proof {
        assert(all.take(found.len() as int) =~= all);
    }
    tokens
}

/// Splits `input_text` into its tokens, in order.
pub fn tokenise(input_text: &str, stopword_set: &TokenSet, parser_config: &ParserConfig) -> (tokens:
    Vec<String>)
    ensures
        texts(tokens@) == tokens_of(
            input_text@,
            stopword_set@,
            parser_config.min_token_length as nat,
            parser_config.remove_stopwords,
        ),
{
    let classified = classified_chars(input_text);
    tokenise_classified(&classified, stopword_set, parser_config)
}

/// The set of the tokens of `input_text`.
pub fn tokenise_to_set(
    input_text: &str,
    stopword_set: &TokenSet,
    parser_config: &ParserConfig,
) -> (tokens: TokenSet)
    ensures
        tokens@ == tokens_of(
            input_text@,
            stopword_set@,
            parser_config.min_token_length as nat,
            parser_config.remove_stopwords,
        ).to_set(),
{
    let sequence_tokens = tokenise(input_text, stopword_set, parser_config);
    TokenSet::from_tokens(&sequence_tokens)
}

/// No word is empty.
pub proof fn lemma_words_are_not_empty(s: Seq<(Seq<char>, bool)>)
    ensures
        forall|i: int| 0 <= i < words(s).len() ==> (#[trigger] words(s)[i]).len() > 0,
    decreases s.len(),
{
    if s.len() > 0 {
        if !s[0].1 {
            lemma_words_are_not_empty(s.skip(1));
            assert(words(s) == words(s.skip(1)));
        } else {
            lemma_run_len_bound(s);
            let rest = words(s.skip(run_len(s) as int));
            let word = spelled(s.take(run_len(s) as int));
            lemma_words_are_not_empty(s.skip(run_len(s) as int));
            assert forall|i: int| 0 <= i < words(s).len() implies (#[trigger] words(s)[i]).len()
                > 0 by {
                if word.len() > 0 {
                    if i > 0 {
                        assert(words(s)[i] == rest[i - 1]);
                    }
                } else {
                    assert(words(s)[i] == rest[i]);
                }
            }
        }
    }
}

/// Every token meets the length rule: it has at least `min_length`
/// characters, or it consists of digits only. Where stopwords are removed,
/// no token is a stopword. No token is empty.
pub proof fn lemma_tokens_meet_rules(
    s: Seq<(Seq<char>, bool)>,
    stopwords: Set<Seq<char>>,
    min_length: nat,
    remove_stopwords: bool,
)
    ensures
        forall|i: int|
            0 <= i < tokens_from(s, stopwords, min_length, remove_stopwords).len() ==> {
                let token = #[trigger] tokens_from(s, stopwords, min_length, remove_stopwords)[i];
                &&& token.len() >= min_length || is_numeric(token)
                &&& remove_stopwords ==> !stopwords.contains(token)
                &&& token.len() > 0
            },
{
    let keep = |t: Seq<char>| keeps(t, stopwords, min_length, remove_stopwords);
    let tokens = words(s).filter(keep);
    lemma_words_are_not_empty(s);
    assert forall|i: int| 0 <= i < tokens.len() implies keep(#[trigger] tokens[i])
        && tokens[i].len() > 0 by {
        words(s).lemma_filter_pred(keep, i);
        assert(tokens.contains(tokens[i]));
        words(s).lemma_filter_contains_rev(keep, tokens[i]);
        let k = choose|k: int| 0 <= k < words(s).len() && words(s)[k] == tokens[i];
        assert(words(s)[k].len() > 0);
    }
}

/// The rules of the filter, applied to tokens that passed them, drop none.
pub proof fn lemma_filter_is_idempotent(
    tokens: Seq<Seq<char>>,
    stopwords: Set<Seq<char>>,
    min_length: nat,
    remove_stopwords: bool,
)
    ensures
        tokens.filter(|t: Seq<char>| keeps(t, stopwords, min_length, remove_stopwords)).filter(
            |t: Seq<char>| keeps(t, stopwords, min_length, remove_stopwords),
        ) == tokens.filter(|t: Seq<char>| keeps(t, stopwords, min_length, remove_stopwords)),
    decreases tokens.len(),
{
    let keep = |t: Seq<char>| keeps(t, stopwords, min_length, remove_stopwords);
    reveal(Seq::filter);
    if tokens.len() > 0 {
        let shorter = tokens.drop_last();
        lemma_filter_is_idempotent(shorter, stopwords, min_length, remove_stopwords);
        if keep(tokens.last()) {
            shorter.filter(keep).lemma_filter_push(tokens.last(), keep);
        }
    }
}

/// Tokenising is repeatable: two runs on the same text, stopwords and
/// options give the same tokens in the same order.
pub proof fn lemma_tokenise_is_repeatable(
    text: Seq<char>,
    stopwords: Set<Seq<char>>,
    min_length: nat,
    remove_stopwords: bool,
    first: Seq<Seq<char>>,
    second: Seq<Seq<char>>,
)
    requires
        first == tokens_of(text, stopwords, min_length, remove_stopwords),
        second == tokens_of(text, stopwords, min_length, remove_stopwords),
    ensures
        first == second,
{
}

/// A token written out for the tokeniser: each of its characters a word
/// character whose lowercase form is the character itself.
pub open spec fn as_word(token: Seq<char>) -> Seq<(Seq<char>, bool)> {
    token.map_values(|c: char| (seq![c], true))
}

/// Tokens written out for the tokeniser, with one character between each
/// two that is no word character and has the given lowercase form.
pub open spec fn written(tokens: Seq<Seq<char>>, separator: Seq<char>) -> Seq<(Seq<char>, bool)>
    decreases tokens.len(),
{
    if tokens.len() == 0 {
        Seq::empty()
    } else if tokens.len() == 1 {
        as_word(tokens[0])
    } else {
        written(tokens.drop_last(), separator) + seq![(separator, false)] + as_word(tokens.last())
    }
}

/// What the leading run is: word characters up to its end, where the
/// sequence ends or a character of another kind stands.
proof fn lemma_run_len_ends(s: Seq<(Seq<char>, bool)>)
    ensures
        run_len(s) <= s.len(),
        forall|k: int| 0 <= k < run_len(s) ==> (#[trigger] s[k]).1,
        run_len(s) == s.len() || !s[run_len(s) as int].1,
    decreases s.len(),
{
    if s.len() > 0 && s[0].1 {
        let rest = s.skip(1);
        lemma_run_len_ends(rest);
        assert forall|k: int| 0 <= k < run_len(s) implies (#[trigger] s[k]).1 by {
            if k > 0 {
                assert(s[k] == rest[k - 1]);
            }
        }
        if run_len(s) < s.len() {
            assert(s[run_len(s) as int] == rest[run_len(rest) as int]);
        }
    }
}

/// A written token spells itself.
proof fn lemma_word_spells_itself(token: Seq<char>)
    ensures
        spelled(as_word(token)) == token,
    decreases token.len(),
{
    if token.len() > 0 {
        lemma_word_spells_itself(token.drop_last());
        assert(as_word(token).drop_last() =~= as_word(token.drop_last()));
        assert(as_word(token).last().0 == seq![token.last()]);
        assert(token.drop_last() + seq![token.last()] =~= token);
    } else {
        assert(as_word(token) =~= Seq::<(Seq<char>, bool)>::empty());
    }
}

/// A written token that is not empty is one word.
proof fn lemma_word_is_one_word(token: Seq<char>)
    requires
        token.len() > 0,
    ensures
        words(as_word(token)) == seq![token],
{
    let s = as_word(token);
    lemma_run_len_is(s, s.len() as int);
    lemma_word_spells_itself(token);
    assert(s.take(s.len() as int) =~= s);
    assert(s.skip(s.len() as int) =~= Seq::<(Seq<char>, bool)>::empty());
    assert(words(s.skip(s.len() as int)) =~= Seq::<Seq<char>>::empty());
    assert(s[0].1);
    assert(seq![token] + Seq::<Seq<char>>::empty() =~= seq![token]);
}

/// Where a character that is no word character stands between two
/// sequences, the words are those of the first and then those of the second.
proof fn lemma_words_around_separator(
    a: Seq<(Seq<char>, bool)>,
    separator: Seq<char>,
    b: Seq<(Seq<char>, bool)>,
)
    ensures
        words(a + seq![(separator, false)] + b) == words(a) + words(b),
    decreases a.len(),
{
    let middle = seq![(separator, false)];
    let s = a + middle + b;
    if a.len() == 0 {
        assert(s.skip(1) =~= b);
        assert(!s[0].1);
        assert(words(a) + words(b) =~= words(b));
    } else if !a[0].1 {
        assert(s[0] == a[0]);
        assert(s.skip(1) =~= a.skip(1) + middle + b);
        lemma_words_around_separator(a.skip(1), separator, b);
    } else {
        let n = run_len(a) as int;
        lemma_run_len_ends(a);
        assert(s[0] == a[0]);
        assert forall|k: int| 0 <= k < n implies (#[trigger] s[k]).1 by {
            assert(s[k] == a[k]);
        }
        if n < a.len() {
            assert(s[n] == a[n]);
        } else {
            assert(s[n] == (separator, false));
        }
        lemma_run_len_is(s, n);
        assert(s.take(n) =~= a.take(n));
        assert(s.skip(n) =~= a.skip(n) + middle + b);
        lemma_words_around_separator(a.skip(n), separator, b);
        let word = spelled(a.take(n));
        if word.len() > 0 {
            assert(words(s) == seq![word] + words(s.skip(n)));
            assert(words(a) == seq![word] + words(a.skip(n)));
            assert(seq![word] + (words(a.skip(n)) + words(b)) =~= (seq![word] + words(a.skip(n)))
                + words(b));
        } else {
            assert(words(s) == words(s.skip(n)));
            assert(words(a) == words(a.skip(n)));
        }
    }
}

/// The words of written tokens are the tokens.
proof fn lemma_written_words(tokens: Seq<Seq<char>>, separator: Seq<char>)
    requires
        forall|i: int| 0 <= i < tokens.len() ==> (#[trigger] tokens[i]).len() > 0,
    ensures
        words(written(tokens, separator)) == tokens,
    decreases tokens.len(),
{
    if tokens.len() == 0 {
        assert(words(written(tokens, separator)) =~= tokens);
    } else if tokens.len() == 1 {
        lemma_word_is_one_word(tokens[0]);
        assert(seq![tokens[0]] =~= tokens);
    } else {
        let shorter = tokens.drop_last();
        assert forall|i: int| 0 <= i < shorter.len() implies (#[trigger] shorter[i]).len() > 0 by {
            assert(shorter[i] == tokens[i]);
        }
        lemma_written_words(shorter, separator);
        assert(tokens[tokens.len() - 1].len() > 0);
        lemma_word_is_one_word(tokens.last());
        lemma_words_around_separator(
            written(shorter, separator),
            separator,
            as_word(tokens.last()),
        );
        assert(shorter + seq![tokens.last()] =~= tokens);
    }
}

/// Tokenising what was tokenised changes nothing. Write the tokens of a
/// text out again, every character of a token as a word character that its
/// lowering leaves as it is, and between each two tokens one character that
/// is no word character: the tokens of that are the same tokens.
pub proof fn lemma_tokenise_again(
    s: Seq<(Seq<char>, bool)>,
    stopwords: Set<Seq<char>>,
    min_length: nat,
    remove_stopwords: bool,
    separator: Seq<char>,
)
    ensures
        tokens_from(
            written(tokens_from(s, stopwords, min_length, remove_stopwords), separator),
            stopwords,
            min_length,
            remove_stopwords,
        ) == tokens_from(s, stopwords, min_length, remove_stopwords),
{
    let tokens = tokens_from(s, stopwords, min_length, remove_stopwords);
    lemma_tokens_meet_rules(s, stopwords, min_length, remove_stopwords);
    lemma_written_words(tokens, separator);
    lemma_filter_is_idempotent(words(s), stopwords, min_length, remove_stopwords);
}

} // verus!
