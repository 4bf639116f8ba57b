//! Turns a Chinese–English dictionary and a word list into flashcard notes.
//!
//! The library parses dictionary lines, indexes the entries, picks one entry
//! per headword and converts between the two written forms of pinyin.

pub mod card;
pub mod cedict;
pub mod chinese_note;
pub mod hanping;
pub mod hsk;
pub mod index;
pub mod ingest;
pub mod integrated;
pub mod pinyin;
pub mod preferred_entry;
pub mod text;
