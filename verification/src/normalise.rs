//! Cleaning of card text: markup tags are removed, character entities are
//! decoded, angle brackets are escaped for display.

use vstd::prelude::*;
use crate::text::{
    chars_of, lowercased, push_char, push_text, text_of, to_lowercase, trim, trimmed,
};

verus! {

/// Whether the end of `s` lies inside a tag: the last angle bracket of `s`
/// is an opening one.
pub open spec fn inside_tag(s: Seq<char>) -> bool
    decreases s.len(),
{
    if s.len() == 0 {
        false
    } else if s.last() == '<' {
        true
    } else if s.last() == '>' {
        false
    } else {
        inside_tag(s.drop_last())
    }
}

/// `s` without its tags: without the angle brackets and without what stands
/// between an opening bracket and the next closing one.
pub open spec fn without_tags(s: Seq<char>) -> Seq<char>
    decreases s.len(),
{
    if s.len() == 0 {
        Seq::empty()
    } else if s.last() != '<' && s.last() != '>' && !inside_tag(s.drop_last()) {
        without_tags(s.drop_last()).push(s.last())
    } else {
        without_tags(s.drop_last())
    }
}

/// Removes the tags from a text.
pub fn strip_html_tags(input_text: &str) -> (output_text: String)
    ensures
        output_text@ == without_tags(input_text@),
{
    let chars = chars_of(input_text);
    let mut output_text = String::new();
    let mut inside = false;
    let mut i: usize = 0;
    while i < chars.len()
        invariant
            i <= chars.len(),
            chars@ == input_text@,
            inside == inside_tag(chars@.take(i as int)),
            output_text@ == without_tags(chars@.take(i as int)),
        decreases chars.len() - i,
    {
        let c = chars[i];
        proof {
            assert(chars@.take(i + 1).drop_last() =~= chars@.take(i as int));
        }
        if c == '<' {
            inside = true;
        } else if c == '>' {
            inside = false;
        } else if !inside {
            push_char(&mut output_text, c);
        }
        i += 1;
    }
    assert(chars@.take(chars.len() as int) =~= chars@);
    output_text
}

/// What stands for one character in escaped text.
pub open spec fn escaped_char(c: char) -> Seq<char> {
    if c == '<' {
        "&lt;"@
    } else if c == '>' {
        "&gt;"@
    } else {
        seq![c]
    }
}

/// `s` with each angle bracket replaced by its entity.
pub open spec fn escaped(s: Seq<char>) -> Seq<char>
    decreases s.len(),
{
    if s.len() == 0 {
        Seq::empty()
    } else {
        escaped(s.drop_last()) + escaped_char(s.last())
    }
}

/// Replaces each angle bracket by its entity, so that no markup is left.
pub fn escape_angle_brackets(input_text: &str) -> (output_text: String)
    ensures
        output_text@ == escaped(input_text@),
{
    let chars = chars_of(input_text);
    let mut output_text = String::new();
    let mut i: usize = 0;
    while i < chars.len()
        invariant
            i <= chars.len(),
            chars@ == input_text@,
            output_text@ == escaped(chars@.take(i as int)),
        decreases chars.len() - i,
    {
        let c = chars[i];
        proof {
            assert(chars@.take(i + 1).drop_last() =~= chars@.take(i as int));
        }
        if c == '<' {
            push_text(&mut output_text, "&lt;");
        } else if c == '>' {
            push_text(&mut output_text, "&gt;");
        } else {
            push_char(&mut output_text, c);
        }
        i += 1;
    }
    assert(chars@.take(chars.len() as int) =~= chars@);
    output_text
}

/// The text for display: angle brackets escaped, then trimmed.
pub fn normalise_for_display(input_text: &str) -> (output_text: String)
    ensures
        output_text@ == trimmed(escaped(input_text@)),
{
    let escaped_text = escape_angle_brackets(input_text);
    trim(escaped_text.as_str())
}

/// The base of a number: sixteen for hexadecimal digits, else ten.
pub open spec fn radix(hex: bool) -> nat {
    if hex {
        16
    } else {
        10
    }
}

/// The value of a digit in the given base, if it is one.
pub open spec fn digit_value(c: char, hex: bool) -> Option<nat> {
    if '0' <= c && c <= '9' {
        Some((c as u32 - '0' as u32) as nat)
    } else if hex && 'a' <= c && c <= 'f' {
        Some((c as u32 - 'a' as u32 + 10) as nat)
    } else if hex && 'A' <= c && c <= 'F' {
        Some((c as u32 - 'A' as u32 + 10) as nat)
    } else {
        None
    }
}

/// Whether every character of `s` is a digit in the given base.
pub open spec fn all_digits(s: Seq<char>, hex: bool) -> bool {
    forall|i: int| 0 <= i < s.len() ==> digit_value(#[trigger] s[i], hex) is Some
}

/// The number that the digits of `s` stand for.
pub open spec fn digits_value(s: Seq<char>, hex: bool) -> nat
    decreases s.len(),
{
    if s.len() == 0 {
        0
    } else {
        digits_value(s.drop_last(), hex) * radix(hex) + digit_value(s.last(), hex).unwrap()
    }
}

/// The number that `s` stands for, as the standard library reads an
/// unsigned 32-bit number: a plus sign may stand before the digits, there is
/// at least one digit, nothing else, and the value fits 32 bits.
pub open spec fn parsed_number(s: Seq<char>, hex: bool) -> Option<u32> {
    let digits = if s.len() >= 2 && s[0] == '+' {
        s.skip(1)
    } else {
        s
    };
    if digits.len() > 0 && all_digits(digits, hex) && digits_value(digits, hex) <= u32::MAX {
        Some(digits_value(digits, hex) as u32)
    } else {
        None
    }
}

/// The character with the given code point, if there is one: code points
/// above 0x10FFFF and the surrogates from 0xD800 to 0xDFFF are none.
pub open spec fn code_point_char(code_point: u32) -> Option<char> {
    if code_point <= 0xD7FF || (0xE000 <= code_point && code_point <= 0x10FFFF) {
        Some(code_point as char)
    } else {
        None
    }
}

/// Trusted: `char::from_u32`, which gives the character of a code point
/// where the code point is one of a character.
#[verifier::external_body]
fn char_from_code_point(code_point: u32) -> (c: Option<char>)
    ensures
        c == code_point_char(code_point),
{
    char::from_u32(code_point)
}

/// The character that an entity's name stands for, if it is one of those
/// that are decoded: `amp`, `lt`, `gt`, `quot`, a decimal code point after
/// `#`, or a hexadecimal one after `#x` or `#X`.
pub open spec fn entity_char(name: Seq<char>) -> Option<char> {
    if name.len() > 0 && name[0] == '#' {
        let number = name.skip(1);
        match parsed_number(number, false) {
            Some(code_point) => code_point_char(code_point),
            None => if number.len() > 0 && (number[0] == 'x' || number[0] == 'X') {
                match parsed_number(number.skip(1), true) {
                    Some(code_point) => code_point_char(code_point),
                    None => None,
                }
            } else {
                None
            },
        }
    } else if name == "amp"@ {
        Some('&')
    } else if name == "lt"@ {
        Some('<')
    } else if name == "gt"@ {
        Some('>')
    } else if name == "quot"@ {
        Some('"')
    } else {
        None
    }
}

/// What an entity with the given name is replaced by: its character, or
/// the entity as it stands where the name is not decoded.
pub open spec fn entity_text(name: Seq<char>) -> Seq<char> {
    match entity_char(name) {
        Some(c) => seq![c],
        None => seq!['&'] + name + seq![';'],
    }
}

/// The number of characters at the start of `s` that may belong to an
/// entity's name: those before the first semicolon or ampersand.
pub open spec fn name_len(s: Seq<char>) -> nat
    decreases s.len(),
{
    if s.len() > 0 && s[0] != ';' && s[0] != '&' {
        1 + name_len(s.skip(1))
    } else {
        0
    }
}

/// `s` with its entities decoded. An ampersand begins an entity, whose name
/// runs to the next semicolon. Where another ampersand comes first, a new
/// entity begins there and what stood since the first is dropped; where the
/// text ends first, the ampersand and what follows are kept as they stand.
pub open spec fn decoded(s: Seq<char>) -> Seq<char>
    decreases s.len(),
{
    if s.len() == 0 {
        Seq::empty()
    } else if s[0] != '&' {
        seq![s[0]] + decoded(s.skip(1))
    } else {
        let n = name_len(s.skip(1)) as int;
        if 1 + n >= s.len() {
            s
        } else if s[1 + n] == '&' {
            decoded(s.skip(1 + n))
        } else {
            entity_text(s.subrange(1, 1 + n)) + decoded(s.skip(2 + n))
        }
    }
}

/// Characters that are neither semicolon nor ampersand, up to the end of
/// `s` or to one of the two, are the name at the start of `s`.
proof fn lemma_name_len_is(s: Seq<char>, n: int)
    requires
        0 <= n <= s.len(),
        forall|k: int| 0 <= k < n ==> #[trigger] s[k] != ';' && s[k] != '&',
        n == s.len() || s[n] == ';' || s[n] == '&',
    ensures
        name_len(s) == n,
    decreases n,
{
    if n > 0 {
        assert forall|k: int| 0 <= k < n - 1 implies #[trigger] s.skip(1)[k] != ';' && s.skip(
            1,
        )[k] != '&' by {}
        lemma_name_len_is(s.skip(1), n - 1);
    }
}

/// More digits give no smaller number.
proof fn lemma_digits_value_grows(s: Seq<char>, hex: bool, k: int)
    requires
        0 <= k <= s.len(),
        all_digits(s, hex),
    ensures
        digits_value(s.take(k), hex) <= digits_value(s, hex),
    decreases s.len() - k,
{
    if k < s.len() {
        let shorter = s.drop_last();
        lemma_digits_value_grows(shorter, hex, k);
        assert(shorter.take(k) =~= s.take(k));
    } else {
        assert(s.take(k) =~= s);
    }
}

/// The value of a digit in the given base, if `c` is one.
fn digit_of(c: char, hex: bool) -> (value: Option<u32>)
    ensures
        value is Some <==> digit_value(c, hex) is Some,
        value is Some ==> value.unwrap() == digit_value(c, hex).unwrap() && value.unwrap() < 16,
{
    let code: u32 = c as u32;
    if '0' <= c && c <= '9' {
        Some(code - 48)
    } else if hex && 'a' <= c && c <= 'f' {
        Some(code - 97 + 10)
    } else if hex && 'A' <= c && c <= 'F' {
        Some(code - 65 + 10)
    } else {
        None
    }
}

/// Reads `chars[from..]` as an unsigned 32-bit number.
fn parse_number(chars: &Vec<char>, from: usize, hex: bool) -> (number: Option<u32>)
    requires
        from <= chars.len(),
    ensures
        number == parsed_number(chars@.skip(from as int), hex),
{
    let ghost s = chars@.skip(from as int);
    let first: usize = if chars.len() - from >= 2 && chars[from] == '+' {
        from + 1
    } else {
        from
    };
    let ghost digits = chars@.skip(first as int);
    if first == chars.len() {
        return None;
    }
    let mut value: u32 = 0;
    let mut i: usize = first;
    while i < chars.len()
        invariant
            first <= i <= chars.len(),
            digits == chars@.skip(first as int),
            s == chars@.skip(from as int),
            digits == if s.len() >= 2 && s[0] == '+' {
                s.skip(1)
            } else {
                s
            },
            all_digits(digits.take(i - first), hex),
            value == digits_value(digits.take(i - first), hex),
        decreases chars.len() - i,
    {
        let c = chars[i];
        let ghost seen = digits.take(i - first);
        proof {
            assert(digits.take(i - first + 1).drop_last() =~= seen);
            assert(digits.take(i - first + 1).last() == c);
        }
        match digit_of(c, hex) {
            None => {
                return None;
            },
            Some(d) => {
                let next: u64 = if hex {
                    (value as u64) * 16 + (d as u64)
                } else {
                    (value as u64) * 10 + (d as u64)
                };
                if next > 0xFFFF_FFFF {
                    proof {
                        if all_digits(digits, hex) {
                            lemma_digits_value_grows(digits, hex, i - first + 1);
                        }
                    }
                    return None;
                }
                value = next as u32;
            },
        }
        i += 1;
    }
    proof {
        assert(digits.take(chars.len() - first) =~= digits);
    }
    Some(value)
}

/// Whether `chars` are the characters of `text`.
fn spells(chars: &Vec<char>, text: &str) -> (same: bool)
    ensures
        same == (chars@ == text@),
{
    let other = chars_of(text);
    if chars.len() != other.len() {
        return false;
    }
    let mut i: usize = 0;
    while i < chars.len()
        invariant
            i <= chars.len(),
            chars.len() == other.len(),
            other@ == text@,
            chars@.take(i as int) == other@.take(i as int),
        decreases chars.len() - i,
    {
        if chars[i] != other[i] {
            return false;
        }
        i += 1;
    }
    proof {
        assert(chars@.take(chars.len() as int) =~= chars@);
        assert(other@.take(chars.len() as int) =~= other@);
    }
    true
}

/// The character that an entity's name stands for, if it is decoded.
pub fn decode_entity(name: &Vec<char>) -> (c: Option<char>)
    ensures
        c == entity_char(name@),
{
    if name.len() > 0 && name[0] == '#' {
        proof {
            if name.len() > 1 {
                assert(name@.skip(1).skip(1) =~= name@.skip(2));
            }
        }
        match parse_number(name, 1, false) {
            Some(code_point) => char_from_code_point(code_point),
            None => {
                if name.len() > 1 && (name[1] == 'x' || name[1] == 'X') {
                    match parse_number(name, 2, true) {
                        Some(code_point) => char_from_code_point(code_point),
                        None => None,
                    }
                } else {
                    None
                }
            },
        }
    } else if spells(name, "amp") {
        Some('&')
    } else if spells(name, "lt") {
        Some('<')
    } else if spells(name, "gt") {
        Some('>')
    } else if spells(name, "quot") {
        Some('"')
    } else {
        None
    }
}

/// Appends to `output` what the entity with the given name is replaced by.
fn push_entity(output: &mut String, name: &Vec<char>)
    ensures
        final(output)@ == old(output)@ + entity_text(name@),
{
    match decode_entity(name) {
        Some(c) => {
            push_char(output, c);
        },
        None => {
            push_char(output, '&');
            push_text(output, text_of(name).as_str());
            push_char(output, ';');
        },
    }
}

/// Decodes the character entities of a text.
pub fn decode_basic_entities(input_text: &str) -> (output_text: String)
    ensures
        output_text@ == decoded(input_text@),
{
    let chars = chars_of(input_text);
    let ghost s = chars@;
    let mut output_text = String::new();
    let mut entity_buffer: Vec<char> = Vec::new();
    let mut inside_entity = false;
    let ghost mut amp: int = 0;
    let mut i: usize = 0;
    proof {
        assert(s.skip(0) =~= s);
    }
    while i < chars.len()
        invariant
            i <= chars.len(),
            s == chars@,
            s == input_text@,
            !inside_entity ==> decoded(s) == output_text@ + decoded(s.skip(i as int)),
            inside_entity ==> {
                &&& 0 <= amp < i
                &&& s[amp] == '&'
                &&& entity_buffer@ == s.subrange(amp + 1, i as int)
                &&& forall|k: int| amp < k < i ==> #[trigger] s[k] != ';' && s[k] != '&'
                &&& decoded(s) == output_text@ + decoded(s.skip(amp))
            },
        decreases chars.len() - i,
    {
        let c = chars[i];
        if c == '&' {
            proof {
                if inside_entity {
                    let rest = s.skip(amp);
                    let n = i - amp - 1;
                    assert forall|k: int| 0 <= k < n implies #[trigger] rest.skip(1)[k] != ';'
                        && rest.skip(1)[k] != '&' by {}
                    lemma_name_len_is(rest.skip(1), n);
                    assert(rest.skip(1 + n) =~= s.skip(i as int));
                }
                amp = i as int;
            }
            inside_entity = true;
            entity_buffer = Vec::new();
        } else if inside_entity {
            if c == ';' {
                proof {
                    let rest = s.skip(amp);
                    let n = i - amp - 1;
                    assert forall|k: int| 0 <= k < n implies #[trigger] rest.skip(1)[k] != ';'
                        && rest.skip(1)[k] != '&' by {}
                    lemma_name_len_is(rest.skip(1), n);
                    assert(rest.subrange(1, 1 + n) =~= entity_buffer@);
                    assert(rest.skip(2 + n) =~= s.skip(i + 1));
                }
                push_entity(&mut output_text, &entity_buffer);
                inside_entity = false;
            } else {
                entity_buffer.push(c);
            }
        } else {
            proof {
                let rest = s.skip(i as int);
                assert(rest.skip(1) =~= s.skip(i + 1));
            }
            push_char(&mut output_text, c);
        }
        i += 1;
    }
    if inside_entity {
        proof {
            let rest = s.skip(amp);
            let n = i - amp - 1;
            assert forall|k: int| 0 <= k < n implies #[trigger] rest.skip(1)[k] != ';' && rest.skip(
                1,
            )[k] != '&' by {}
            lemma_name_len_is(rest.skip(1), n);
        }
        push_char(&mut output_text, '&');
        push_text(&mut output_text, text_of(&entity_buffer).as_str());
    }
    output_text
}

/// The text that cards are matched by: tags removed, entities decoded, in
/// lowercase, trimmed.
pub open spec fn matching_text(s: Seq<char>) -> Seq<char> {
    trimmed(lowercased(decoded(without_tags(s))))
}

/// The text for matching: tags removed, entities decoded, in lowercase,
/// trimmed.
pub fn normalise_for_matching(input_text: &str) -> (output_text: String)
    ensures
        output_text@ == matching_text(input_text@),
{
    let without_tags = strip_html_tags(input_text);
    let decoded_text = decode_basic_entities(without_tags.as_str());
    let lowercased_text = to_lowercase(decoded_text.as_str());
    trim(lowercased_text.as_str())
}

} // verus!
