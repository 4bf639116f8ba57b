//! A note: the entry chosen for one item of a word list, with its tags.

use crate::cedict::{Entry, EntryView};
use crate::text::views;
use vstd::prelude::*;

verus! {

/// An entry and the tags that its note carries.
#[derive(Clone, PartialEq, Eq, Debug)]
pub struct ChineseNote {
    pub ce: Entry,
    pub tags: Vec<String>,
}

/// What a `ChineseNote` holds, as character sequences.
pub struct NoteView {
    pub ce: EntryView,
    pub tags: Seq<Seq<char>>,
}

impl View for ChineseNote {
    type V = NoteView;

    open spec fn view(&self) -> NoteView {
        NoteView { ce: self.ce@, tags: views(self.tags@) }
    }
}

} // verus!
