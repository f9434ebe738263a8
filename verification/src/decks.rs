//! The deck file format: one card to a line, its fields separated by tabs.
//! The text of a file is turned into cards and a record of each line that
//! was refused.

use vstd::prelude::*;
use crate::data_model::{
    card_views, record_views, Card, CardView, DeckPath, InvalidRecord, InvalidRecordView,
};
use crate::normalise::{matching_text, normalise_for_matching};
use crate::text::{
    chars_of, decimal, decimal_text, lines, lines_of, push_text, split, split_text, texts, trim,
    trimmed,
};

verus! {

/// The fewest fields that a line of a card has.
pub const MIN_COLUMNS: usize = 5;

/// What one line of a deck file gives.
#[derive(Debug)]
pub enum DeckLine {
    /// A blank line or a line of metadata, which begins with `#`.
    Skipped,
    /// A line that is refused, with the reason.
    Invalid(String),
    /// A card.
    Valid(Card),
}

/// What one line of a deck file gives, as texts.
pub enum DeckLineView {
    Skipped,
    Invalid(Seq<char>),
    Valid(CardView),
}

impl View for DeckLine {
    type V = DeckLineView;

    open spec fn view(&self) -> DeckLineView {
        match self {
            DeckLine::Skipped => DeckLineView::Skipped,
            DeckLine::Invalid(reason) => DeckLineView::Invalid(reason@),
            DeckLine::Valid(card) => DeckLineView::Valid(card@),
        }
    }
}

/// The topic path that a field of a deck file names: none where the field
/// is empty; else its pieces between `::`, each trimmed.
pub open spec fn topic_of(field: Seq<char>) -> Seq<Seq<char>> {
    if field.len() == 0 {
        Seq::empty()
    } else {
        split(field, "::"@).map_values(|segment: Seq<char>| trimmed(segment))
    }
}

/// What a line gives. Of a card's line the first field is the identifier,
/// the third the topic, the fourth the question and the fifth the answer,
/// each trimmed. A line with fewer than five fields, without an identifier,
/// or without a question or an answer is refused.
pub open spec fn parsed_line(line: Seq<char>) -> DeckLineView {
    let columns = split(line, "\t"@);
    if line.len() == 0 || line[0] == '#' {
        DeckLineView::Skipped
    } else if columns.len() < MIN_COLUMNS {
        DeckLineView::Invalid("Expected at least 5 columns, found "@ + decimal(columns.len()))
    } else if trimmed(columns[0]).len() == 0 {
        DeckLineView::Invalid("Empty GUID"@)
    } else if trimmed(columns[3]).len() == 0 || trimmed(columns[4]).len() == 0 {
        DeckLineView::Invalid("Empty question or answer"@)
    } else {
        DeckLineView::Valid(
            CardView {
                guid: trimmed(columns[0]),
                question_text: matching_text(trimmed(columns[3])),
                answer_raw: trimmed(columns[4]),
                deck_path: topic_of(trimmed(columns[2])),
            },
        )
    }
}

/// The cards of the given lines, in order.
pub open spec fn cards_of(file_lines: Seq<Seq<char>>) -> Seq<CardView>
    decreases file_lines.len(),
{
    if file_lines.len() == 0 {
        Seq::empty()
    } else {
        match parsed_line(file_lines.last()) {
            DeckLineView::Valid(card) => cards_of(file_lines.drop_last()).push(card),
            _ => cards_of(file_lines.drop_last()),
        }
    }
}

/// The records of the refused lines among the given ones, in order. Lines
/// are numbered from one.
pub open spec fn refused_of(file_path: Seq<char>, file_lines: Seq<Seq<char>>) -> Seq<
    InvalidRecordView,
>
    decreases file_lines.len(),
{
    if file_lines.len() == 0 {
        Seq::empty()
    } else {
        match parsed_line(file_lines.last()) {
            DeckLineView::Invalid(reason) => refused_of(file_path, file_lines.drop_last()).push(
                InvalidRecordView {
                    file_path,
                    line_number: file_lines.len(),
                    reason,
                    raw_line: file_lines.last(),
                },
            ),
            _ => refused_of(file_path, file_lines.drop_last()),
        }
    }
}

/// The topic path that a field names.
fn parse_topic(field: &str) -> (path: DeckPath)
    ensures
        texts(path@) == topic_of(field@),
{
    let mut path: DeckPath = Vec::new();
    if field.is_empty() {
        return path;
    }
    let pieces = split_text(field, "::");
    let ghost raw = texts(pieces@);
    let mut i: usize = 0;
    while i < pieces.len()
        invariant
            i <= pieces.len(),
            raw == texts(pieces@),
            texts(path@) == raw.take(i as int).map_values(|segment: Seq<char>| trimmed(segment)),
        decreases pieces.len() - i,
    {
        let segment = trim(pieces[i].as_str());
        proof {
            assert(raw.take(i + 1) =~= raw.take(i as int).push(raw[i as int]));
            assert(raw.take(i as int).push(raw[i as int]).map_values(
                |segment: Seq<char>| trimmed(segment),
            ) =~= raw.take(i as int).map_values(|segment: Seq<char>| trimmed(segment)).push(
                trimmed(raw[i as int]),
            ));
        }
        path.push(segment);
        i += 1;
    }
    path
}

/// Reads one line of a deck file.
pub fn parse_deck_line(line: &str) -> (parsed: DeckLine)
    ensures
        parsed@ == parsed_line(line@),
{
    let chars = chars_of(line);
    if chars.len() == 0 || chars[0] == '#' {
        return DeckLine::Skipped;
    }
    let columns = split_text(line, "\t");
    if columns.len() < MIN_COLUMNS {
        let mut reason = "Expected at least 5 columns, found ".to_owned();
        push_text(&mut reason, decimal_text(columns.len()).as_str());
        return DeckLine::Invalid(reason);
    }
    let guid = trim(columns[0].as_str());
    let deck_path_text = trim(columns[2].as_str());
    let question = trim(columns[3].as_str());
    let answer = trim(columns[4].as_str());
    if guid.as_str().is_empty() {
        return DeckLine::Invalid("Empty GUID".to_owned());
    }
    if question.as_str().is_empty() || answer.as_str().is_empty() {
        return DeckLine::Invalid("Empty question or answer".to_owned());
    }
    let deck_path = parse_topic(deck_path_text.as_str());
    let question_text = normalise_for_matching(question.as_str());
    DeckLine::Valid(Card { guid, question_text, answer_raw: answer, deck_path })
}

/// Reads the text of a deck file: its cards, and a record of each line that
/// was refused. `file_path` names the file in the records.
pub fn parse_deck_text(file_path: &str, content: &str) -> (parsed: (Vec<Card>, Vec<InvalidRecord>))
    ensures
        card_views(parsed.0@) == cards_of(lines(content@)),
        record_views(parsed.1@) == refused_of(file_path@, lines(content@)),
{
    let file_lines = lines_of(content);
    let ghost all = texts(file_lines@);
    let mut cards: Vec<Card> = Vec::new();
    let mut invalid_records: Vec<InvalidRecord> = Vec::new();
    let mut i: usize = 0;
    while i < file_lines.len()
        invariant
            i <= file_lines.len(),
            all == texts(file_lines@),
            card_views(cards@) == cards_of(all.take(i as int)),
            record_views(invalid_records@) == refused_of(file_path@, all.take(i as int)),
        decreases file_lines.len() - i,
    {
        proof {
            assert(all.take(i + 1).drop_last() =~= all.take(i as int));
        }
        match parse_deck_line(file_lines[i].as_str()) {
            DeckLine::Skipped => {},
            DeckLine::Invalid(reason) => {
                let record = InvalidRecord {
                    file_path: file_path.to_owned(),
                    line_number: i + 1,
                    reason,
                    raw_line: file_lines[i].clone(),
                };
                invalid_records.push(record);
            },
            DeckLine::Valid(card) => {
                cards.push(card);
            },
        }
        i += 1;
    }
    assert(all.take(file_lines.len() as int) =~= all);
    (cards, invalid_records)
}

/// What reading one deck file gave: its text, or the message of the error.
#[derive(Debug)]
pub struct DeckSource {
    pub file_path: String,
    pub content: Result<String, String>,
}

/// The cards of the given files, file after file.
pub open spec fn loaded_cards(sources: Seq<DeckSource>) -> Seq<CardView>
    decreases sources.len(),
{
    if sources.len() == 0 {
        Seq::empty()
    } else {
        match sources.last().content {
            Ok(content) => loaded_cards(sources.drop_last()) + cards_of(lines(content@)),
            Err(_) => loaded_cards(sources.drop_last()),
        }
    }
}

/// The record of a file that could not be read.
pub open spec fn unreadable(file_path: Seq<char>, error: Seq<char>) -> InvalidRecordView {
    InvalidRecordView {
        file_path,
        line_number: 0,
        reason: "Unreadable file: "@ + error,
        raw_line: Seq::empty(),
    }
}

/// The records of the given files, file after file: those of the refused
/// lines of a file that was read, and one for a file that was not.
pub open spec fn loaded_records(sources: Seq<DeckSource>) -> Seq<InvalidRecordView>
    decreases sources.len(),
{
    if sources.len() == 0 {
        Seq::empty()
    } else {
        match sources.last().content {
            Ok(content) => loaded_records(sources.drop_last()) + refused_of(
                sources.last().file_path@,
                lines(content@),
            ),
            Err(error) => loaded_records(sources.drop_last()).push(
                unreadable(sources.last().file_path@, error@),
            ),
        }
    }
}

/// Puts together what the deck files hold: the cards of all files that were
/// read, and the records of all refused lines and unreadable files.
pub fn load_decks(sources: &[DeckSource]) -> (loaded: (Vec<Card>, Vec<InvalidRecord>))
    ensures
        card_views(loaded.0@) == loaded_cards(sources@),
        record_views(loaded.1@) == loaded_records(sources@),
{
    let mut all_cards: Vec<Card> = Vec::new();
    let mut all_invalid_records: Vec<InvalidRecord> = Vec::new();
    let mut i: usize = 0;
    while i < sources.len()
        invariant
            i <= sources.len(),
            card_views(all_cards@) == loaded_cards(sources@.take(i as int)),
            record_views(all_invalid_records@) == loaded_records(sources@.take(i as int)),
        decreases sources.len() - i,
    {
        let source = &sources[i];
        proof {
            assert(sources@.take(i + 1).drop_last() =~= sources@.take(i as int));
        }
        match &source.content {
            Ok(content) => {
                let (mut cards, mut invalids) = parse_deck_text(
                    source.file_path.as_str(),
                    content.as_str(),
                );
                all_cards.append(&mut cards);
                all_invalid_records.append(&mut invalids);
            },
            Err(error) => {
                let mut reason = "Unreadable file: ".to_owned();
                push_text(&mut reason, error.as_str());
                let record = InvalidRecord {
                    file_path: source.file_path.clone(),
                    line_number: 0,
                    reason,
                    raw_line: String::new(),
                };
                all_invalid_records.push(record);
            },
        }
        i += 1;
    }
    assert(sources@.take(sources.len() as int) =~= sources@);
    (all_cards, all_invalid_records)
}

/// The entry of the log for one refused line: the file and the line number,
/// the reason, and below them the line as it stood.
pub open spec fn log_entry(record: InvalidRecordView) -> Seq<char> {
    record.file_path + ":"@ + decimal(record.line_number) + "  "@ + record.reason + "\n"@
        + record.raw_line
}

/// The entries of the log of refused lines, one for each record.
pub fn log_invalid_records(invalid_records: &[InvalidRecord]) -> (entries: Vec<String>)
    ensures
        texts(entries@) == record_views(invalid_records@).map_values(
            |r: InvalidRecordView| log_entry(r),
        ),
{
    let ghost all = record_views(invalid_records@);
    let ghost entry = |r: InvalidRecordView| log_entry(r);
    let mut entries: Vec<String> = Vec::new();
    let mut i: usize = 0;
    while i < invalid_records.len()
        invariant
            i <= invalid_records.len(),
            all == record_views(invalid_records@),
            entry == |r: InvalidRecordView| log_entry(r),
            texts(entries@) == all.take(i as int).map_values(entry),
        decreases invalid_records.len() - i,
    {
        let record = &invalid_records[i];
        let mut composed_line = record.file_path.clone();
        push_text(&mut composed_line, ":");
        push_text(&mut composed_line, decimal_text(record.line_number).as_str());
        push_text(&mut composed_line, "  ");
        push_text(&mut composed_line, record.reason.as_str());
        push_text(&mut composed_line, "\n");
        push_text(&mut composed_line, record.raw_line.as_str());
        proof {
            assert(texts(entries@.push(composed_line)) =~= texts(entries@).push(composed_line@));
        }
        entries.push(composed_line);
        i += 1;
    }
    entries
}

} // verus!
