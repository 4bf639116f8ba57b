//! The word list of the textbook: a table in CSV with a headword, a level
//! and a lesson in each row.

use crate::cedict::EntryView;
use crate::ingest::{
    note_for, note_for_word, nothing_ingested, with_outcome, IngestError, Ingested, IngestedView,
};
use crate::preferred_entry::{PreferredEntryGetter, PreferredView};
use crate::text::{
    chars_of, decimal, decimal_chars, number_value, parse_number, push_all, string_of, views,
};
use vstd::prelude::*;

verus! {

/// The rows of a CSV text without a header row, each with its fields, or
/// nothing where the text cannot be read as CSV.
pub uninterp spec fn csv_records_of(text: Seq<char>) -> Option<Seq<Seq<Seq<char>>>>;

/// The rows of a table, each with the characters of its fields.
pub open spec fn rows_view(rows: Seq<Vec<String>>) -> Seq<Seq<Seq<char>>> {
    Seq::new(rows.len(), |i: int| views(rows[i]@))
}

/// The view of what reading a CSV text returns.
pub open spec fn records_view(rows: Option<Vec<Vec<String>>>) -> Option<Seq<Seq<Seq<char>>>> {
    match rows {
        Some(rows) => Some(rows_view(rows@)),
        None => None,
    }
}

/// The rows of a CSV text.
///
/// Trusted: reads the text with a `csv::Reader` that takes the first row as
/// data and lets rows differ in length, and returns the fields of each
/// record that `records` yields, or nothing where it yields an error. What
/// comes out depends on the text alone.
#[verifier::external_body]
fn csv_records(text: &str) -> (rows: Option<Vec<Vec<String>>>)
    ensures
        records_view(rows) == csv_records_of(text@),
{
    let mut reader = csv::ReaderBuilder::new().has_headers(false).flexible(true).from_reader(
        text.as_bytes(),
    );
    let mut rows: Vec<Vec<String>> = Vec::new();
    for record in reader.records() {
        match record {
            Ok(fields) => rows.push(fields.iter().map(String::from).collect()),
            Err(_) => return None,
        }
    }
    Some(rows)
}

/// The tag of a level and a lesson.
pub open spec fn lesson_tag(level: nat, lesson: nat) -> Seq<char> {
    "IC_"@ + decimal(level) + seq!['_'] + decimal(lesson)
}

/// Whether a row has three fields of which the second and the third spell
/// numbers that fit in 32 bits.
pub open spec fn is_lesson_row(row: Seq<Seq<char>>) -> bool {
    &&& row.len() == 3
    &&& number_value(row[1]) matches Some(level) && level <= u32::MAX
    &&& number_value(row[2]) matches Some(lesson) && lesson <= u32::MAX
}

/// The notes for the rows of the list, or the first failure: a row of
/// another shape, or a headword for which no entry could be chosen. A
/// headword that the dictionary lacks gives no note and is listed as
/// missing.
pub open spec fn lesson_notes(
    entries: Seq<EntryView>,
    table: Map<Seq<char>, PreferredView>,
    rows: Seq<Seq<Seq<char>>>,
) -> Result<IngestedView, IngestError>
    decreases rows.len(),
{
    if rows.len() == 0 {
        Ok(nothing_ingested())
    } else {
        match lesson_notes(entries, table, rows.drop_last()) {
            Err(error) => Err(error),
            Ok(notes) => {
                let row = rows.last();
                if !is_lesson_row(row) {
                    Err(IngestError::BadRow { row: (rows.len() - 1) as usize })
                } else {
                    match note_for_word(
                        entries,
                        table,
                        row[0],
                        None,
                        lesson_tag(number_value(row[1])->0, number_value(row[2])->0),
                    ) {
                        Ok(note) => Ok(with_outcome(notes, row[0], note)),
                        Err(error) => Err(IngestError::Unresolved { error }),
                    }
                }
            },
        }
    }
}

/// What reading a CSV text and choosing the entries gives.
pub open spec fn lesson_result(
    entries: Seq<EntryView>,
    table: Map<Seq<char>, PreferredView>,
    records: Option<Seq<Seq<Seq<char>>>>,
) -> Result<IngestedView, IngestError> {
    match records {
        Some(rows) => lesson_notes(entries, table, rows),
        None => Err(IngestError::Unreadable),
    }
}

/// The tag of a level and a lesson.
pub fn make_tag(level: u32, lesson: u32) -> (tag: String)
    ensures
        tag@ == lesson_tag(level as nat, lesson as nat),
{
    let mut out = chars_of("IC_");
    push_all(&mut out, decimal_chars(level).as_slice());
    out.push('_');
    push_all(&mut out, decimal_chars(lesson).as_slice());
    string_of(out.as_slice())
}

/// Once a row has failed, the rows behind it change nothing.
pub proof fn lemma_failure_stays(
    entries: Seq<EntryView>,
    table: Map<Seq<char>, PreferredView>,
    rows: Seq<Seq<Seq<char>>>,
    n: int,
)
    requires
        0 <= n <= rows.len(),
        lesson_notes(entries, table, rows.take(n)) is Err,
    ensures
        lesson_notes(entries, table, rows) == lesson_notes(entries, table, rows.take(n)),
    decreases rows.len() - n,
{
    if n < rows.len() {
        assert(rows.take(n + 1).drop_last() == rows.take(n));
        lemma_failure_stays(entries, table, rows, n + 1);
    } else {
        assert(rows.take(n) == rows);
    }
}

/// The notes for the rows of a table: for each headword that the dictionary
/// has, the chosen entry, tagged with the level and the lesson of the row.
/// The headwords that the dictionary lacks are handed back as missing.
pub fn notes_from_rows(rows: &Vec<Vec<String>>, getter: &PreferredEntryGetter) -> (r: Result<
    Ingested,
    IngestError,
>)
    ensures
        match r {
            Ok(notes) => lesson_notes(getter.dict()@, getter.table(), rows_view(rows@)) == Ok::<
                IngestedView,
                IngestError,
            >(notes@),
            Err(error) => lesson_notes(getter.dict()@, getter.table(), rows_view(rows@)) == Err::<
                IngestedView,
                IngestError,
            >(error),
        },
{
    let ghost rs = rows_view(rows@);
    let mut notes = Ingested::new();
    let mut i: usize = 0;
    while i < rows.len()
        invariant
            i <= rows.len(),
            rs == rows_view(rows@),
            lesson_notes(getter.dict()@, getter.table(), rs.take(i as int)) == Ok::<
                IngestedView,
                IngestError,
            >(notes@),
        decreases rows.len() - i,
    {
        assert(rs.take(i + 1).drop_last() == rs.take(i as int));
        assert(rs.take(i + 1).last() == views(rows[i as int]@));
        let row = &rows[i];
        let numbers = if row.len() == 3 {
            match (
                parse_number(chars_of(row[1].as_str()).as_slice()),
                parse_number(chars_of(row[2].as_str()).as_slice()),
            ) {
                (Some(level), Some(lesson)) => Some((level, lesson)),
                _ => None,
            }
        } else {
            None
        };
        let (level, lesson) = match numbers {
            Some(numbers) => numbers,
            None => {
                proof {
                    lemma_failure_stays(getter.dict()@, getter.table(), rs, i + 1);
                }
                return Err(IngestError::BadRow { row: i });
            },
        };
        match note_for(getter, row[0].as_str(), None, make_tag(level, lesson)) {
            Ok(note) => {
                notes.record(row[0].as_str(), note);
            },
            Err(error) => {
                proof {
                    lemma_failure_stays(getter.dict()@, getter.table(), rs, i + 1);
                }
                return Err(IngestError::Unresolved { error });
            },
        }
        i += 1;
    }
    assert(rs.take(rows.len() as int) == rs);
    Ok(notes)
}

/// The notes for the word list of the textbook, given as CSV without a
/// header row: see `notes_from_rows`. A text that cannot be read as CSV gives
/// `Unreadable`.
pub fn get_chinese_notes(wordlist: &str, getter: &PreferredEntryGetter) -> (r: Result<
    Ingested,
    IngestError,
>)
    ensures
        match r {
            Ok(notes) => lesson_result(
                getter.dict()@,
                getter.table(),
                csv_records_of(wordlist@),
            ) == Ok::<IngestedView, IngestError>(notes@),
            Err(error) => lesson_result(
                getter.dict()@,
                getter.table(),
                csv_records_of(wordlist@),
            ) == Err::<IngestedView, IngestError>(error),
        },
{
    match csv_records(wordlist) {
        Some(rows) => notes_from_rows(&rows, getter),
        None => Err(IngestError::Unreadable),
    }
}

} // verus!
