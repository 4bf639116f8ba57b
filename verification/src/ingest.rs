//! What the word lists with headwords alone share: the note for one
//! headword, and the ways in which reading such a list can fail.

use crate::cedict::EntryView;
use crate::chinese_note::{ChineseNote, NoteView};
use crate::index::{option_view, search_result};
use crate::preferred_entry::{
    resolve, simp_query, PreferredEntryGetter, PreferredView, ResolveError,
};
use crate::text::{chars_of, string_of, views};
use vstd::prelude::*;

verus! {

/// Why a word list gave no notes.
#[derive(Clone, Copy, PartialEq, Eq, Debug)]
pub enum IngestError {
    /// The text is no table at all.
    Unreadable,
    /// The row at this position, counted from 0, has not the shape of a row.
    BadRow { row: usize },
    /// No entry could be chosen for a headword that the dictionary has.
    Unresolved { error: ResolveError },
}

/// What a word list gave: the notes, and the headwords that the dictionary
/// lacks, both in the order of the list.
#[derive(Clone, PartialEq, Eq, Debug)]
pub struct Ingested {
    pub notes: Vec<ChineseNote>,
    pub missing: Vec<String>,
}

/// What an `Ingested` holds, as character sequences.
pub struct IngestedView {
    pub notes: Seq<NoteView>,
    pub missing: Seq<Seq<char>>,
}

impl View for Ingested {
    type V = IngestedView;

    open spec fn view(&self) -> IngestedView {
        IngestedView { notes: views(self.notes@), missing: views(self.missing@) }
    }
}

/// What a word list without items gives.
pub open spec fn nothing_ingested() -> IngestedView {
    IngestedView { notes: Seq::empty(), missing: Seq::empty() }
}

/// `so_far` with the outcome for one more headword: its note, or the
/// headword among the missing.
pub open spec fn with_outcome(
    so_far: IngestedView,
    simp: Seq<char>,
    note: Option<NoteView>,
) -> IngestedView {
    match note {
        Some(note) => IngestedView { notes: so_far.notes.push(note), missing: so_far.missing },
        None => IngestedView { notes: so_far.notes, missing: so_far.missing.push(simp) },
    }
}

/// The note for one headword: none where the dictionary has no entry with
/// that simplified form, else the chosen entry with the one tag.
pub open spec fn note_for_word(
    entries: Seq<EntryView>,
    table: Map<Seq<char>, PreferredView>,
    simp: Seq<char>,
    part_of_speech: Option<Seq<char>>,
    tag: Seq<char>,
) -> Result<Option<NoteView>, ResolveError> {
    if search_result(entries, simp_query(simp)).len() == 0 {
        Ok(None)
    } else {
        match resolve(entries, table, simp, part_of_speech) {
            Ok(ce) => Ok(Some(NoteView { ce, tags: seq![tag] })),
            Err(error) => Err(error),
        }
    }
}

/// The view of an optional note.
pub open spec fn note_view(note: Option<ChineseNote>) -> Option<NoteView> {
    match note {
        Some(note) => Some(note@),
        None => None,
    }
}

/// The note for one headword: none where the dictionary has no entry with
/// that simplified form, else the chosen entry with the one tag.
pub fn note_for(
    getter: &PreferredEntryGetter,
    simp: &str,
    part_of_speech: Option<&str>,
    tag: String,
) -> (r: Result<Option<ChineseNote>, ResolveError>)
    ensures
        match r {
            Ok(note) => note_for_word(
                getter.dict()@,
                getter.table(),
                simp@,
                option_view(part_of_speech),
                tag@,
            ) == Ok::<Option<NoteView>, ResolveError>(note_view(note)),
            Err(error) => note_for_word(
                getter.dict()@,
                getter.table(),
                simp@,
                option_view(part_of_speech),
                tag@,
            ) == Err::<Option<NoteView>, ResolveError>(error),
        },
{
    if getter.dictionary().search_simp(simp).len() == 0 {
        return Ok(None);
    }
    match getter.get(simp, part_of_speech) {
        Ok(ce) => {
            let mut tags: Vec<String> = Vec::new();
            tags.push(tag);
            assert(views(tags@) == seq![tag@]);
            Ok(Some(ChineseNote { ce, tags }))
        },
        Err(error) => Err(error),
    }
}

impl Ingested {
    /// What a word list without items gives.
    pub fn new() -> (r: Ingested)
        ensures
            r@ == nothing_ingested(),
    {
        let r = Ingested { notes: Vec::new(), missing: Vec::new() };
        assert(r@.notes == Seq::<NoteView>::empty());
        assert(r@.missing == Seq::<Seq<char>>::empty());
        r
    }

    /// Adds the outcome for one more headword.
    pub fn record(&mut self, simp: &str, note: Option<ChineseNote>)
        ensures
            final(self)@ == with_outcome(old(self)@, simp@, note_view(note)),
    {
        let ghost before = self@;
        match note {
            Some(note) => {
                self.notes.push(note);
                assert(self@.notes == before.notes.push(note@));
            },
            None => {
                let headword = string_of(chars_of(simp).as_slice());
                self.missing.push(headword);
                assert(self@.missing == before.missing.push(simp@));
            },
        }
    }
}

} // verus!
