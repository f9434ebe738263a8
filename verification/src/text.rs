//! Text primitives. A string is modelled by its view, the sequence of its
//! characters; every function here is stated over that sequence.

use vstd::prelude::*;

verus! {

/// Whether Unicode classifies `c` as alphabetic or numeric.
pub uninterp spec fn is_alphanumeric(c: char) -> bool;

/// The Unicode lowercase form of one character: one character or more.
pub uninterp spec fn lowercase_form(c: char) -> Seq<char>;

/// The Unicode lowercase form of a whole text.
pub uninterp spec fn lowercased(s: Seq<char>) -> Seq<char>;

/// Trusted: `char::is_alphanumeric`. The result is named, not defined: it is
/// whatever the Unicode tables of the standard library say of `c`.
#[verifier::external_body]
pub(crate) fn char_is_alphanumeric(c: char) -> (r: bool)
    ensures
        r == is_alphanumeric(c),
{
    c.is_alphanumeric()
}

/// Trusted: `char::to_lowercase`, which yields the lowercase mapping of a
/// character as one or more characters. The result is named, not defined; it
/// depends on `c` alone.
#[verifier::external_body]
pub(crate) fn char_to_lowercase(c: char) -> (r: String)
    ensures
        r@ == lowercase_form(c),
{
    c.to_lowercase().to_string()
}

/// Trusted: `str::to_lowercase`. The result is named, not defined; it depends
/// on the characters of `s` alone.
#[verifier::external_body]
pub(crate) fn to_lowercase(s: &str) -> (r: String)
    ensures
        r@ == lowercased(s@),
{
    s.to_lowercase()
}

/// Trusted: `String::push`, which appends one character.
#[verifier::external_body]
pub(crate) fn push_char(s: &mut String, c: char)
    ensures
        final(s)@ == old(s)@.push(c),
{
    s.push(c)
}

/// The views of a sequence of strings.
pub open spec fn texts(items: Seq<String>) -> Seq<Seq<char>> {
    items.map_values(|s: String| s@)
}

/// Whether `c` is one of the decimal digits `0` to `9`.
pub open spec fn is_ascii_digit(c: char) -> bool {
    '0' <= c && c <= '9'
}

/// Whether `c` is one of the decimal digits `0` to `9`.
pub fn char_is_ascii_digit(c: char) -> (r: bool)
    ensures
        r == is_ascii_digit(c),
{
    '0' <= c && c <= '9'
}

/// The characters of `s`, in order.
pub fn chars_of(s: &str) -> (v: Vec<char>)
    ensures
        v@ == s@,
{
    let mut v: Vec<char> = Vec::new();
    for c in it: s.chars()
        invariant
            it.seq() == s@,
            v@ == it.seq().take(it.index() as int),
    {
        v.push(c);
    }
    v
}

/// The string made of `chars[from..to]`.
fn text_of_range(chars: &Vec<char>, from: usize, to: usize) -> (s: String)
    requires
        from <= to <= chars.len(),
    ensures
        s@ == chars@.subrange(from as int, to as int),
{
    let mut s = String::new();
    let mut i: usize = from;
    while i < to
        invariant
            from <= i <= to <= chars.len(),
            s@ == chars@.subrange(from as int, i as int),
        decreases to - i,
    {
        push_char(&mut s, chars[i]);
        i += 1;
    }
    s
}

/// The string made of all of `chars`.
pub fn text_of(chars: &Vec<char>) -> (s: String)
    ensures
        s@ == chars@,
{
    text_of_range(chars, 0, chars.len())
}

/// Whether `c` has the Unicode property `White_Space`: one of 25 code
/// points, the same that `char::is_whitespace` accepts.
pub open spec fn is_whitespace(c: char) -> bool {
    let code = c as u32;
    ||| 0x09 <= code <= 0x0D
    ||| code == 0x20
    ||| code == 0x85
    ||| code == 0xA0
    ||| code == 0x1680
    ||| 0x2000 <= code <= 0x200A
    ||| code == 0x2028
    ||| code == 0x2029
    ||| code == 0x202F
    ||| code == 0x205F
    ||| code == 0x3000
}

/// Whether `c` has the Unicode property `White_Space`.
pub fn char_is_whitespace(c: char) -> (r: bool)
    ensures
        r == is_whitespace(c),
{
    let code: u32 = c as u32;
    (0x09 <= code && code <= 0x0D) || code == 0x20 || code == 0x85 || code == 0xA0 || code
        == 0x1680 || (0x2000 <= code && code <= 0x200A) || code == 0x2028 || code == 0x2029
        || code == 0x202F || code == 0x205F || code == 0x3000
}

/// `s` without the whitespace at its start.
pub open spec fn trim_start(s: Seq<char>) -> Seq<char>
    decreases s.len(),
{
    if s.len() > 0 && is_whitespace(s[0]) {
        trim_start(s.skip(1))
    } else {
        s
    }
}

/// `s` without the whitespace at its end.
pub open spec fn trim_end(s: Seq<char>) -> Seq<char>
    decreases s.len(),
{
    if s.len() > 0 && is_whitespace(s.last()) {
        trim_end(s.drop_last())
    } else {
        s
    }
}

/// `s` without the whitespace at its start and at its end.
pub open spec fn trimmed(s: Seq<char>) -> Seq<char> {
    trim_end(trim_start(s))
}

/// Whitespace up to the end of `s`, or to a character of another kind, is
/// what `trim_start` removes.
proof fn lemma_trim_start_is(s: Seq<char>, n: int)
    requires
        0 <= n <= s.len(),
        forall|k: int| 0 <= k < n ==> is_whitespace(#[trigger] s[k]),
        n == s.len() || !is_whitespace(s[n]),
    ensures
        trim_start(s) == s.skip(n),
    decreases n,
{
    if n > 0 {
        lemma_trim_start_is(s.skip(1), n - 1);
    }
}

/// Whitespace from the end of `s` back to its start, or to a character of
/// another kind, is what `trim_end` removes.
proof fn lemma_trim_end_is(s: Seq<char>, n: int)
    requires
        0 <= n <= s.len(),
        forall|k: int| n <= k < s.len() ==> is_whitespace(#[trigger] s[k]),
        n == 0 || !is_whitespace(s[n - 1]),
    ensures
        trim_end(s) == s.take(n),
    decreases s.len() - n,
{
    if n < s.len() {
        lemma_trim_end_is(s.drop_last(), n);
    }
}

/// The text of `s` without the whitespace at its start and at its end.
pub fn trim(s: &str) -> (r: String)
    ensures
        r@ == trimmed(s@),
{
    let chars = chars_of(s);
    let mut from: usize = 0;
    while from < chars.len() && char_is_whitespace(chars[from])
        invariant
            from <= chars.len(),
            forall|k: int| 0 <= k < from ==> is_whitespace(#[trigger] chars@[k]),
        decreases chars.len() - from,
    {
        from += 1;
    }
    let mut to: usize = chars.len();
    while to > from && char_is_whitespace(chars[to - 1])
        invariant
            from <= to <= chars.len(),
            forall|k: int| to <= k < chars.len() ==> is_whitespace(#[trigger] chars@[k]),
        decreases to,
    {
        to -= 1;
    }
    proof {
        let rest = chars@.skip(from as int);
        lemma_trim_start_is(chars@, from as int);
        lemma_trim_end_is(rest, to - from);
    }
    text_of_range(&chars, from, to)
}

/// Whether `s` begins with `prefix`.
pub open spec fn starts_with(s: Seq<char>, prefix: Seq<char>) -> bool {
    prefix.len() <= s.len() && s.take(prefix.len() as int) == prefix
}

/// Whether `pattern` stands in `s` at place `i`.
pub open spec fn matches_at(s: Seq<char>, pattern: Seq<char>, i: int) -> bool {
    0 <= i && i + pattern.len() <= s.len() && s.subrange(i, i + pattern.len()) == pattern
}

/// Whether `pattern` stands in `chars` at place `i`.
pub fn pattern_at(chars: &Vec<char>, pattern: &Vec<char>, i: usize) -> (r: bool)
    ensures
        r == matches_at(chars@, pattern@, i as int),
{
    if pattern.len() > chars.len() || i > chars.len() - pattern.len() {
        return false;
    }
    let mut k: usize = 0;
    while k < pattern.len()
        invariant
            k <= pattern.len(),
            i + pattern.len() <= chars.len(),
            chars@.subrange(i as int, i + k) == pattern@.take(k as int),
        decreases pattern.len() - k,
    {
        if chars[i + k] != pattern[k] {
            return false;
        }
        k += 1;
    }
    assert(pattern@.take(pattern.len() as int) =~= pattern@);
    true
}

/// Whether the text `s` begins with the text `prefix`.
pub fn text_starts_with(s: &str, prefix: &str) -> (r: bool)
    ensures
        r == starts_with(s@, prefix@),
{
    let chars = chars_of(s);
    let pattern = chars_of(prefix);
    pattern_at(&chars, &pattern, 0)
}

/// The first place from `from` on at which `pattern` stands in `s`; -1 where
/// there is none.
pub open spec fn first_match(s: Seq<char>, pattern: Seq<char>, from: int) -> int
    decreases s.len() - from + 1,
{
    if from < 0 || from + pattern.len() > s.len() {
        -1
    } else if matches_at(s, pattern, from) {
        from
    } else {
        first_match(s, pattern, from + 1)
    }
}

/// The pieces into which an empty separator cuts `s`: an empty piece, each
/// character by itself, and an empty piece.
pub open spec fn split_chars(s: Seq<char>) -> Seq<Seq<char>> {
    seq![Seq::<char>::empty()] + s.map_values(|c: char| seq![c]) + seq![Seq::<char>::empty()]
}

/// The pieces of `s` between the occurrences of `separator`, which are
/// found from left to right and do not overlap.
pub open spec fn split(s: Seq<char>, separator: Seq<char>) -> Seq<Seq<char>>
    decreases s.len(),
{
    if separator.len() == 0 {
        split_chars(s)
    } else {
        let i = first_match(s, separator, 0);
        if 0 <= i <= s.len() - separator.len() {
            seq![s.take(i)] + split(s.skip(i + separator.len()), separator)
        } else {
            seq![s]
        }
    }
}

/// Where `pattern` stands nowhere in `s` from `from` up to `upto`, the search
/// from `from` gives what the search from `upto` gives.
pub proof fn lemma_first_match_skip(s: Seq<char>, pattern: Seq<char>, from: int, upto: int)
    requires
        0 <= from <= upto,
        forall|k: int| from <= k < upto ==> !matches_at(s, pattern, k),
    ensures
        first_match(s, pattern, from) == first_match(s, pattern, upto),
    decreases upto - from,
{
    if from < upto {
        lemma_first_match_skip(s, pattern, from + 1, upto);
    }
}

/// The pieces of `text` between the occurrences of `separator`.
pub fn split_text(text: &str, separator: &str) -> (pieces: Vec<String>)
    ensures
        texts(pieces@) == split(text@, separator@),
{
    let chars = chars_of(text);
    let pattern = chars_of(separator);
    let ghost s = chars@;
    let ghost sep = pattern@;
    let mut pieces: Vec<String> = Vec::new();
    if pattern.len() == 0 {
        pieces.push(String::new());
        let mut i: usize = 0;
        while i < chars.len()
            invariant
                i <= chars.len(),
                s == chars@,
                texts(pieces@) == seq![Seq::<char>::empty()] + s.take(i as int).map_values(
                    |c: char| seq![c],
                ),
            decreases chars.len() - i,
        {
            let piece = text_of_range(&chars, i, i + 1);
            proof {
                assert(piece@ =~= seq![s[i as int]]);
                assert(texts(pieces@.push(piece)) =~= texts(pieces@).push(piece@));
            }
            pieces.push(piece);
            i += 1;
        }
        let last = String::new();
        proof {
            assert(texts(pieces@).push(last@) =~= split_chars(s));
        }
        pieces.push(last);
        return pieces;
    }
    let mut start: usize = 0;
    let mut i: usize = 0;
    proof {
        assert(s.skip(0) =~= s);
    }
    while pattern.len() <= chars.len() && i <= chars.len() - pattern.len()
        invariant
            s == chars@,
            sep == pattern@,
            sep.len() > 0,
            start <= i <= chars.len(),
            split(s, sep) == texts(pieces@) + split(s.skip(start as int), sep),
            forall|k: int| 0 <= k < i - start ==> !matches_at(s.skip(start as int), sep, k),
        decreases chars.len() - i,
    {
        if pattern_at(&chars, &pattern, i) {
            let piece = text_of_range(&chars, start, i);
            proof {
                let rest = s.skip(start as int);
                let at = i - start;
                assert(rest.subrange(at, at + sep.len()) =~= s.subrange(i as int, i + sep.len()));
                lemma_first_match_skip(rest, sep, 0, at);
                assert(rest.take(at) =~= s.subrange(start as int, i as int));
                assert(rest.skip(at + sep.len()) =~= s.skip(i + sep.len()));
            }
            pieces.push(piece);
            i += pattern.len();
            start = i;
        } else {
            proof {
                let rest = s.skip(start as int);
                let at = i - start;
                if matches_at(rest, sep, at) {
                    assert(rest.subrange(at, at + sep.len()) =~= s.subrange(
                        i as int,
                        i + sep.len(),
                    ));
                }
            }
            i += 1;
        }
    }
    let piece = text_of_range(&chars, start, chars.len());
    proof {
        let rest = s.skip(start as int);
        let at = i - start;
        lemma_first_match_skip(rest, sep, 0, at);
    }
    pieces.push(piece);
    pieces
}

/// The parts in one text, with `separator` between each two.
pub open spec fn join(parts: Seq<Seq<char>>, separator: Seq<char>) -> Seq<char>
    decreases parts.len(),
{
    if parts.len() == 0 {
        Seq::empty()
    } else if parts.len() == 1 {
        parts[0]
    } else {
        join(parts.drop_last(), separator) + separator + parts.last()
    }
}

/// Appends the characters of `tail` to `s`.
pub fn push_text(s: &mut String, tail: &str)
    ensures
        final(s)@ == old(s)@ + tail@,
{
    let chars = chars_of(tail);
    let mut i: usize = 0;
    while i < chars.len()
        invariant
            i <= chars.len(),
            chars@ == tail@,
            s@ == old(s)@ + tail@.take(i as int),
        decreases chars.len() - i,
    {
        push_char(s, chars[i]);
        i += 1;
    }
}

/// The texts of `parts` in one, with `separator` between each two.
pub fn join_texts(parts: &Vec<String>, separator: &str) -> (joined: String)
    ensures
        joined@ == join(texts(parts@), separator@),
{
    let mut joined = String::new();
    let mut i: usize = 0;
    let ghost all = texts(parts@);
    while i < parts.len()
        invariant
            i <= parts.len(),
            all == texts(parts@),
            joined@ == join(all.take(i as int), separator@),
        decreases parts.len() - i,
    {
        proof {
            assert(all.take(i + 1).drop_last() =~= all.take(i as int));
        }
        if i > 0 {
            push_text(&mut joined, separator);
        }
        push_text(&mut joined, parts[i].as_str());
        i += 1;
    }
    assert(all.take(parts.len() as int) =~= all);
    joined
}

/// A line without the carriage return at its end, if it has one.
pub open spec fn without_carriage_return(line: Seq<char>) -> Seq<char> {
    if line.len() > 0 && line.last() == '\r' {
        line.drop_last()
    } else {
        line
    }
}

/// The lines of `s`. A line ends with a line feed, or with a carriage return
/// and a line feed, neither of which belongs to the line; a last line
/// without a line ending is taken as it stands, and after a final line
/// ending no further line follows.
pub open spec fn lines(s: Seq<char>) -> Seq<Seq<char>>
    decreases s.len(),
{
    if s.len() == 0 {
        Seq::empty()
    } else {
        let i = first_match(s, seq!['\n'], 0);
        if 0 <= i < s.len() {
            seq![without_carriage_return(s.take(i))] + lines(s.skip(i + 1))
        } else {
            seq![s]
        }
    }
}

/// The lines of `text`.
pub fn lines_of(text: &str) -> (found: Vec<String>)
    ensures
        texts(found@) == lines(text@),
{
    let chars = chars_of(text);
    let ghost s = chars@;
    let ghost feed = seq!['\n'];
    let mut found: Vec<String> = Vec::new();
    let mut start: usize = 0;
    let mut i: usize = 0;
    proof {
        assert(s.skip(0) =~= s);
    }
    while i < chars.len()
        invariant
            s == chars@,
            feed == seq!['\n'],
            start <= i <= chars.len(),
            lines(s) == texts(found@) + lines(s.skip(start as int)),
            forall|k: int| start <= k < i ==> s[k] != '\n',
        decreases chars.len() - i,
    {
        if chars[i] == '\n' {
            let end = if i > start && chars[i - 1] == '\r' {
                i - 1
            } else {
                i
            };
            let line = text_of_range(&chars, start, end);
            proof {
                let rest = s.skip(start as int);
                let at = i - start;
                assert forall|k: int| 0 <= k < at implies !matches_at(rest, feed, k) by {
                    if matches_at(rest, feed, k) {
                        assert(rest.subrange(k, k + 1)[0] == s[start + k]);
                    }
                }
                assert(rest.subrange(at, at + 1) =~= feed);
                lemma_first_match_skip(rest, feed, 0, at);
                assert(rest.skip(at + 1) =~= s.skip(i + 1));
                assert(line@ == without_carriage_return(rest.take(at)));
            }
            found.push(line);
            start = i + 1;
        }
        i += 1;
    }
    if start < chars.len() {
        let line = text_of_range(&chars, start, chars.len());
        proof {
            let rest = s.skip(start as int);
            assert forall|k: int| 0 <= k < rest.len() implies !matches_at(rest, feed, k) by {
                if matches_at(rest, feed, k) {
                    assert(rest.subrange(k, k + 1)[0] == s[start + k]);
                }
            }
            lemma_first_match_skip(rest, feed, 0, rest.len() as int);
        }
        found.push(line);
    }
    found
}

/// The character of a decimal digit.
pub open spec fn digit_char(d: nat) -> char {
    (('0' as u8) + d) as char
}

/// The decimal digits of `n`, without leading zeros.
pub open spec fn decimal(n: nat) -> Seq<char>
    decreases n,
{
    if n < 10 {
        seq![digit_char(n)]
    } else {
        decimal(n / 10).push(digit_char(n % 10))
    }
}

/// `n` written in decimal digits.
pub fn decimal_text(n: usize) -> (s: String)
    ensures
        s@ == decimal(n as nat),
{
    let mut reversed: Vec<char> = Vec::new();
    let mut rest: usize = n;
    let ghost mut tail: Seq<char> = Seq::empty();
    while rest >= 10
        invariant
            decimal(n as nat) == decimal(rest as nat) + tail,
            tail.len() == reversed.len(),
            forall|k: int| 0 <= k < tail.len() ==> tail[k] == reversed@[tail.len() - 1 - k],
        decreases rest,
    {
        let d: u8 = (rest % 10) as u8;
        let c = (48u8 + d) as char;
        proof {
            tail = seq![c] + tail;
        }
        reversed.push(c);
        rest = rest / 10;
    }
    let mut s = String::new();
    let first = (48u8 + (rest as u8)) as char;
    push_char(&mut s, first);
    let mut k: usize = reversed.len();
    while k > 0
        invariant
            k <= reversed.len(),
            tail.len() == reversed.len(),
            forall|j: int| 0 <= j < tail.len() ==> tail[j] == reversed@[tail.len() - 1 - j],
            s@ == decimal(rest as nat) + tail.take(reversed.len() - k),
        decreases k,
    {
        k -= 1;
        push_char(&mut s, reversed[k]);
    }
    s
}

} // verus!
