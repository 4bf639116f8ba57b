//! The HSK word list: rows of a headword, a part of speech that may be
//! empty, and a level of one digit.

use crate::cedict::EntryView;
use crate::ingest::{
    note_for, note_for_word, nothing_ingested, with_outcome, IngestError, Ingested, IngestedView,
};
use crate::preferred_entry::{PreferredEntryGetter, PreferredView, ResolveError};
use crate::text::{
    chars_of, decimal, decimal_chars, digit_value, index_of, index_of_from, lemma_index_of,
    push_all, split, split_chars, str_eq, string_of, views,
};
use vstd::prelude::*;
use vstd::slice::slice_subrange;

verus! {

/// One row of the word list.
#[derive(Clone, PartialEq, Eq, Debug)]
pub struct HskWord {
    pub simp: String,
    /// Empty for most words.
    pub part_of_speech: String,
    pub level: u32,
}

/// What an `HskWord` holds.
pub struct HskWordView {
    pub simp: Seq<char>,
    pub part_of_speech: Seq<char>,
    pub level: nat,
}

impl View for HskWord {
    type V = HskWordView;

    open spec fn view(&self) -> HskWordView {
        HskWordView {
            simp: self.simp@,
            part_of_speech: self.part_of_speech@,
            level: self.level as nat,
        }
    }
}

/// The word of a row `HEADWORD,PART,LEVEL`. The headword is not empty and
/// ends at the first comma behind its first character; the level is the last
/// character, a digit, behind a comma.
pub open spec fn hsk_row(row: Seq<char>) -> Option<HskWordView> {
    match index_of(row, ',', 1) {
        Some(i) if i + 3 <= row.len() && row[row.len() - 2] == ',' => match digit_value(
            row.last(),
        ) {
            Some(level) => Some(
                HskWordView {
                    simp: row.subrange(0, i),
                    part_of_speech: row.subrange(i + 1, row.len() - 2),
                    level,
                },
            ),
            None => None,
        },
        _ => None,
    }
}

/// The words of the lines of a word list, or the position of the first line
/// that is neither empty nor a row. Empty lines are passed over.
pub open spec fn hsk_words(lines: Seq<Seq<char>>) -> Result<Seq<HskWordView>, IngestError>
    decreases lines.len(),
{
    if lines.len() == 0 {
        Ok(Seq::empty())
    } else {
        match hsk_words(lines.drop_last()) {
            Err(error) => Err(error),
            Ok(words) => if lines.last().len() == 0 {
                Ok(words)
            } else {
                match hsk_row(lines.last()) {
                    Some(word) => Ok(words.push(word)),
                    None => Err(IngestError::BadRow { row: (lines.len() - 1) as usize }),
                }
            },
        }
    }
}

/// The tag of a level.
pub open spec fn hsk_tag(level: nat) -> Seq<char> {
    "HSK_Level_"@ + decimal(level)
}

/// The part of speech of a word as a hint: none where it is empty.
pub open spec fn hint(part_of_speech: Seq<char>) -> Option<Seq<char>> {
    if part_of_speech.len() == 0 {
        None
    } else {
        Some(part_of_speech)
    }
}

/// The notes for the words of the list, or the first failure to choose an
/// entry. The word `纪录` is passed over; a word that the dictionary lacks
/// gives no note and is listed as missing.
pub open spec fn hsk_notes(
    entries: Seq<EntryView>,
    table: Map<Seq<char>, PreferredView>,
    words: Seq<HskWordView>,
) -> Result<IngestedView, ResolveError>
    decreases words.len(),
{
    if words.len() == 0 {
        Ok(nothing_ingested())
    } else {
        match hsk_notes(entries, table, words.drop_last()) {
            Err(error) => Err(error),
            Ok(notes) => {
                let word = words.last();
                if word.simp == "纪录"@ {
                    Ok(notes)
                } else {
                    match note_for_word(
                        entries,
                        table,
                        word.simp,
                        hint(word.part_of_speech),
                        hsk_tag(word.level),
                    ) {
                        Ok(note) => Ok(with_outcome(notes, word.simp, note)),
                        Err(error) => Err(error),
                    }
                }
            },
        }
    }
}

/// The word of a row, if the line is one.
pub fn parse_row(row: &[char]) -> (r: Option<HskWord>)
    ensures
        match r {
            Some(word) => hsk_row(row@) == Some(word@),
            None => hsk_row(row@) is None,
        },
{
    let n = row.len();
    let i = match index_of_from(row, ',', 1) {
        Some(i) => i,
        None => {
            return None;
        },
    };
    proof {
        lemma_index_of(row@, ',', 1);
    }
    if n - i < 3 || row[n - 2] != ',' {
        return None;
    }
    let last = row[n - 1];
    if !('0' <= last && last <= '9') {
        return None;
    }
    Some(
        HskWord {
            simp: string_of(slice_subrange(row, 0, i)),
            part_of_speech: string_of(slice_subrange(row, i + 1, n - 2)),
            level: (last as u8 - 48u8) as u32,
        },
    )
}

/// Once a line has failed, the lines behind it change nothing.
pub proof fn lemma_bad_row_stays(lines: Seq<Seq<char>>, n: int)
    requires
        0 <= n <= lines.len(),
        hsk_words(lines.take(n)) is Err,
    ensures
        hsk_words(lines) == hsk_words(lines.take(n)),
    decreases lines.len() - n,
{
    if n < lines.len() {
        assert(lines.take(n + 1).drop_last() == lines.take(n));
        lemma_bad_row_stays(lines, n + 1);
    } else {
        assert(lines.take(n) == lines);
    }
}

/// The words of a word list, one row per line. Empty lines are passed over;
/// any other line that is no row fails the list.
pub fn get_hsk_words(wordlist: &str) -> (r: Result<Vec<HskWord>, IngestError>)
    ensures
        match r {
            Ok(words) => hsk_words(split(wordlist@, '\n')) == Ok::<Seq<HskWordView>, IngestError>(
                views(words@),
            ),
            Err(error) => hsk_words(split(wordlist@, '\n')) == Err::<Seq<HskWordView>, IngestError>(
                error,
            ),
        },
{
    let chars = chars_of(wordlist);
    let lines = split_chars(chars.as_slice(), '\n');
    let mut words: Vec<HskWord> = Vec::new();
    let mut i: usize = 0;
    assert(views(words@) == Seq::<HskWordView>::empty());
    while i < lines.len()
        invariant
            i <= lines.len(),
            views(lines@) == split(wordlist@, '\n'),
            hsk_words(views(lines@).take(i as int)) == Ok::<Seq<HskWordView>, IngestError>(
                views(words@),
            ),
        decreases lines.len() - i,
    {
        let ghost before = views(words@);
        assert(views(lines@).take(i + 1).drop_last() == views(lines@).take(i as int));
        assert(views(lines@).take(i + 1).last() == lines[i as int]@);
        if lines[i].len() > 0 {
            match parse_row(lines[i].as_slice()) {
                Some(word) => {
                    words.push(word);
                    assert(views(words@) == before.push(word@));
                },
                None => {
                    proof {
                        lemma_bad_row_stays(views(lines@), i + 1);
                    }
                    return Err(IngestError::BadRow { row: i });
                },
            }
        }
        i += 1;
    }
    assert(views(lines@).take(lines.len() as int) == views(lines@));
    Ok(words)
}

/// The tag of a level.
pub fn make_tag(level: u32) -> (tag: String)
    ensures
        tag@ == hsk_tag(level as nat),
{
    let mut out = chars_of("HSK_Level_");
    push_all(&mut out, decimal_chars(level).as_slice());
    string_of(out.as_slice())
}

/// Once a word has failed, the words behind it change nothing.
pub proof fn lemma_unresolved_stays(
    entries: Seq<EntryView>,
    table: Map<Seq<char>, PreferredView>,
    words: Seq<HskWordView>,
    n: int,
)
    requires
        0 <= n <= words.len(),
        hsk_notes(entries, table, words.take(n)) is Err,
    ensures
        hsk_notes(entries, table, words) == hsk_notes(entries, table, words.take(n)),
    decreases words.len() - n,
{
    if n < words.len() {
        assert(words.take(n + 1).drop_last() == words.take(n));
        lemma_unresolved_stays(entries, table, words, n + 1);
    } else {
        assert(words.take(n) == words);
    }
}

/// The notes for the given words.
pub fn notes_for_words(words: &Vec<HskWord>, getter: &PreferredEntryGetter) -> (r: Result<
    Ingested,
    ResolveError,
>)
    ensures
        match r {
            Ok(notes) => hsk_notes(getter.dict()@, getter.table(), views(words@)) == Ok::<
                IngestedView,
                ResolveError,
            >(notes@),
            Err(error) => hsk_notes(getter.dict()@, getter.table(), views(words@)) == Err::<
                IngestedView,
                ResolveError,
            >(error),
        },
{
    let ghost ws = views(words@);
    let mut notes = Ingested::new();
    let mut i: usize = 0;
    while i < words.len()
        invariant
            i <= words.len(),
            ws == views(words@),
            hsk_notes(getter.dict()@, getter.table(), ws.take(i as int)) == Ok::<
                IngestedView,
                ResolveError,
            >(notes@),
        decreases words.len() - i,
    {
        assert(ws.take(i + 1).drop_last() == ws.take(i as int));
        assert(ws.take(i + 1).last() == words[i as int]@);
        let word = &words[i];
        if !str_eq(word.simp.as_str(), "纪录") {
            let part_of_speech = if word.part_of_speech.as_str().is_empty() {
                None
            } else {
                Some(word.part_of_speech.as_str())
            };
            match note_for(getter, word.simp.as_str(), part_of_speech, make_tag(word.level)) {
                Ok(note) => {
                    notes.record(word.simp.as_str(), note);
                },
                Err(error) => {
                    proof {
                        lemma_unresolved_stays(getter.dict()@, getter.table(), ws, i + 1);
                    }
                    return Err(error);
                },
            }
        }
        i += 1;
    }
    assert(ws.take(words.len() as int) == ws);
    Ok(notes)
}

/// What reading a word list and choosing the entries gives.
pub open spec fn hsk_result(
    entries: Seq<EntryView>,
    table: Map<Seq<char>, PreferredView>,
    wordlist: Seq<char>,
) -> Result<IngestedView, IngestError> {
    match hsk_words(split(wordlist, '\n')) {
        Err(error) => Err(error),
        Ok(words) => match hsk_notes(entries, table, words) {
            Ok(notes) => Ok(notes),
            Err(error) => Err(IngestError::Unresolved { error }),
        },
    }
}

/// The notes for the HSK word list: for each word that the dictionary has,
/// the chosen entry, tagged with the level of the word. The part of speech
/// of a word, where the list gives one, is the hint for the choice. The
/// words that the dictionary lacks are handed back as missing.
pub fn get_chinese_notes(wordlist: &str, getter: &PreferredEntryGetter) -> (r: Result<
    Ingested,
    IngestError,
>)
    ensures
        match r {
            Ok(notes) => hsk_result(getter.dict()@, getter.table(), wordlist@) == Ok::<
                IngestedView,
                IngestError,
            >(notes@),
            Err(error) => hsk_result(getter.dict()@, getter.table(), wordlist@) == Err::<
                IngestedView,
                IngestError,
            >(error),
        },
{
    let words = match get_hsk_words(wordlist) {
        Ok(words) => words,
        Err(error) => {
            return Err(error);
        },
    };
    match notes_for_words(&words, getter) {
        Ok(notes) => Ok(notes),
        Err(error) => Err(IngestError::Unresolved { error }),
    }
}

} // verus!
