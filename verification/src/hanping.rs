//! Word lists with one item per line, of the shape
//! `TRAD [SIMP] PINYIN GLOSSES`. The simplified form is left out where it
//! equals the traditional one; where it is given, a `-` stands for each
//! character that the two forms share.

use crate::cedict::EntryView;
use crate::chinese_note::{ChineseNote, NoteView};
use crate::index::{search_result, Dict, DictSearchParams, SearchView};
use crate::pinyin::{ascii_pinyin, pinyin_to_ascii_chars};
use crate::text::{
    chars_of, find, find_from, index_of, index_of_from, lemma_find, lemma_index_of, matches_at,
    occurs_at, split, split_chars, string_of, views,
};
use vstd::prelude::*;
use vstd::slice::slice_subrange;
use vstd::string::StringExecFns;

verus! {

/// What one line of the word list says.
#[derive(Debug)]
pub struct ParsedLine {
    pub trad: String,
    pub simp: String,
    /// The pronunciation, in ASCII with tone digits.
    pub pinyin: String,
}

/// What a `ParsedLine` holds, as character sequences.
pub struct ParsedLineView {
    pub trad: Seq<char>,
    pub simp: Seq<char>,
    pub pinyin: Seq<char>,
}

impl View for ParsedLine {
    type V = ParsedLineView;

    open spec fn view(&self) -> ParsedLineView {
        ParsedLineView { trad: self.trad@, simp: self.simp@, pinyin: self.pinyin@ }
    }
}

/// Where the fields of a line lie.
pub struct LineShape {
    /// The traditional form ends before this position.
    pub trad_end: int,
    /// The position of the `]` behind the simplified form, where the line
    /// gives one; the form begins two characters behind `trad_end`.
    pub simp_end: Option<int>,
    /// The rest of the line, pronunciation and glosses, begins here.
    pub rest_start: int,
}

/// The first position at or after `from` that holds no space, or the length
/// of `t`.
pub open spec fn first_non_space(t: Seq<char>, from: int) -> int
    decreases t.len() - from,
{
    if from < 0 || from >= t.len() {
        t.len() as int
    } else if t[from] != ' ' {
        from
    } else {
        first_non_space(t, from + 1)
    }
}

/// The shape of a line. The traditional form ends at the first space behind
/// the first character. ` [`, the simplified form, `]` and a space may
/// follow. Behind that come spaces and the rest, which is not empty: where
/// only spaces are left, the last of them is the rest. A text with a line
/// break in it has no shape.
pub open spec fn line_shape(t: Seq<char>) -> Option<LineShape> {
    if index_of(t, '\n', 0) is Some {
        None
    } else {
        match index_of(t, ' ', 1) {
            Some(e) if e + 2 <= t.len() => {
                let simp_end = if occurs_at(t, " ["@, e) {
                    match find(t, "] "@, e + 3) {
                        Some(j) if j + 3 <= t.len() => Some(j),
                        _ => None,
                    }
                } else {
                    None
                };
                let spaces_from = match simp_end {
                    Some(j) => j + 1,
                    None => e,
                };
                let m = first_non_space(t, spaces_from);
                Some(
                    LineShape {
                        trad_end: e,
                        simp_end,
                        rest_start: if m < t.len() {
                            m
                        } else {
                            t.len() - 1
                        },
                    },
                )
            },
            _ => None,
        }
    }
}

/// The first position without a space lies at or after the start of the
/// search.
pub proof fn lemma_first_non_space(t: Seq<char>, from: int)
    requires
        0 <= from <= t.len(),
    ensures
        from <= first_non_space(t, from) <= t.len(),
    decreases t.len() - from,
{
    if from < t.len() && t[from] == ' ' {
        lemma_first_non_space(t, from + 1);
    }
}

/// The simplified form that `dashed` stands for: a `-` takes the character
/// of the traditional form at its position. The form ends where the shorter
/// of the two ends.
pub open spec fn fill_dashes(dashed: Seq<char>, trad: Seq<char>) -> Seq<char> {
    Seq::new(
        if dashed.len() <= trad.len() {
            dashed.len()
        } else {
            trad.len()
        },
        |i: int|
            if dashed[i] != '-' {
                dashed[i]
            } else {
                trad[i]
            },
    )
}

/// The position of the `n`-th space at or after `from`.
pub open spec fn nth_space(t: Seq<char>, from: int, n: int) -> Option<int>
    decreases n,
{
    match index_of(t, ' ', from) {
        Some(i) => if n <= 1 {
            Some(i)
        } else {
            nth_space(t, i + 1, n - 1)
        },
        None => None,
    }
}

/// The first `n` syllables of `rest`: what stands before its `n`-th space,
/// or all of it where it has fewer spaces.
pub open spec fn leading_syllables(rest: Seq<char>, n: int) -> Seq<char> {
    match nth_space(rest, 0, n) {
        Some(i) if 0 <= i <= rest.len() => rest.subrange(0, i),
        _ => rest,
    }
}

/// What a line says, if it has the shape of a word-list line. The
/// pronunciation has as many syllables as the traditional form has
/// characters.
pub open spec fn parsed_line(t: Seq<char>) -> Option<ParsedLineView> {
    match line_shape(t) {
        Some(shape) => {
            let trad = t.subrange(0, shape.trad_end);
            let rest = t.subrange(shape.rest_start, t.len() as int);
            Some(
                ParsedLineView {
                    trad,
                    simp: match shape.simp_end {
                        Some(j) => fill_dashes(t.subrange(shape.trad_end + 2, j), trad),
                        None => trad,
                    },
                    pinyin: ascii_pinyin(leading_syllables(rest, trad.len() as int)),
                },
            )
        },
        None => None,
    }
}

/// The message for a line without the shape of a word-list line.
pub open spec fn line_error(t: Seq<char>) -> Seq<char> {
    "Could not parse Hanping word list line: "@ + t
}

/// Where the fields of a line lie, as found at run time.
struct Fields {
    trad_end: usize,
    simp_end: Option<usize>,
    rest_start: usize,
}

impl Fields {
    spec fn shape(self) -> LineShape {
        LineShape {
            trad_end: self.trad_end as int,
            simp_end: match self.simp_end {
                Some(j) => Some(j as int),
                None => None,
            },
            rest_start: self.rest_start as int,
        }
    }
}

/// The first position at or after `from` that holds no space, or the length
/// of `t`.
fn skip_spaces(t: &[char], from: usize) -> (m: usize)
    requires
        from <= t.len(),
    ensures
        m == first_non_space(t@, from as int),
        from <= m <= t.len(),
{
    let mut m: usize = from;
    while m < t.len() && t[m] == ' '
        invariant
            from <= m <= t.len(),
            first_non_space(t@, from as int) == first_non_space(t@, m as int),
        decreases t.len() - m,
    {
        m += 1;
    }
    m
}

/// The shape of a line, if it has one.
fn find_fields(t: &[char]) -> (r: Option<Fields>)
    ensures
        match r {
            Some(f) => line_shape(t@) == Some(f.shape()) && 1 <= f.trad_end < f.rest_start
                < t.len() && (f.simp_end matches Some(j) ==> f.trad_end + 3 <= j < t.len()),
            None => line_shape(t@) is None,
        },
{
    proof {
        reveal_strlit(" [");
        reveal_strlit("] ");
    }
    if index_of_from(t, '\n', 0).is_some() {
        return None;
    }
    let e = match index_of_from(t, ' ', 1) {
        Some(e) => e,
        None => {
            return None;
        },
    };
    proof {
        lemma_index_of(t@, ' ', 1);
    }
    if t.len() - e < 2 {
        return None;
    }
    let mut simp_end: Option<usize> = None;
    if t.len() - e >= 5 && matches_at(t, chars_of(" [").as_slice(), e) {
        proof {
            lemma_find(t@, "] "@, e + 3);
        }
        match find_from(t, chars_of("] ").as_slice(), e + 3) {
            Some(j) => {
                if t.len() - j >= 3 {
                    simp_end = Some(j);
                }
            },
            None => {},
        }
    }
    let spaces_from = match simp_end {
        Some(j) => j + 1,
        None => e,
    };
    let m = skip_spaces(t, spaces_from);
    assert(m > spaces_from) by {
        assert(t@[spaces_from as int] == ' ') by {
            if simp_end is Some {
                assert(t@.subrange(spaces_from - 1, spaces_from + 1)[1] == ' ');
            }
        }
        lemma_first_non_space(t@, spaces_from + 1);
    }
    let rest_start = if m < t.len() {
        m
    } else {
        t.len() - 1
    };
    Some(Fields { trad_end: e, simp_end, rest_start })
}

/// The simplified form that `dashed` stands for.
fn fill(dashed: &[char], trad: &[char]) -> (r: Vec<char>)
    ensures
        r@ == fill_dashes(dashed@, trad@),
{
    let n = if dashed.len() <= trad.len() {
        dashed.len()
    } else {
        trad.len()
    };
    let mut r: Vec<char> = Vec::new();
    let mut i: usize = 0;
    while i < n
        invariant
            i <= n,
            n <= dashed.len(),
            n <= trad.len(),
            r@ == fill_dashes(dashed@, trad@).take(i as int),
            fill_dashes(dashed@, trad@).len() == n,
        decreases n - i,
    {
        r.push(
            if dashed[i] != '-' {
                dashed[i]
            } else {
                trad[i]
            },
        );
        i += 1;
    }
    r
}

/// Where the first `n` syllables of `rest` end.
fn syllables_end(rest: &[char], n: usize) -> (end: usize)
    requires
        n >= 1,
    ensures
        end <= rest.len(),
        rest@.subrange(0, end as int) == leading_syllables(rest@, n as int),
{
    let mut from: usize = 0;
    let mut left: usize = n;
    loop
        invariant
            left >= 1,
            from <= rest.len(),
            nth_space(rest@, 0, n as int) == nth_space(rest@, from as int, left as int),
        decreases left,
    {
        proof {
            lemma_index_of(rest@, ' ', from as int);
        }
        match index_of_from(rest, ' ', from) {
            Some(i) => {
                if left <= 1 {
                    return i;
                }
                from = i + 1;
                left -= 1;
            },
            None => {
                assert(rest@.subrange(0, rest.len() as int) == rest@);
                return rest.len();
            },
        }
    }
}

/// What a line says, if it has the shape of a word-list line.
pub fn parse_line_chars(t: &[char]) -> (r: Option<ParsedLine>)
    ensures
        match r {
            Some(p) => parsed_line(t@) == Some(p@),
            None => parsed_line(t@) is None,
        },
{
    let f = match find_fields(t) {
        Some(f) => f,
        None => {
            return None;
        },
    };
    let trad = slice_subrange(t, 0, f.trad_end);
    let simp = match f.simp_end {
        Some(j) => fill(slice_subrange(t, f.trad_end + 2, j), trad),
        None => crate::text::copy_range(t, 0, f.trad_end),
    };
    let rest = slice_subrange(t, f.rest_start, t.len());
    let end = syllables_end(rest, trad.len());
    let pinyin = pinyin_to_ascii_chars(slice_subrange(rest, 0, end));
    Some(
        ParsedLine {
            trad: string_of(trad),
            simp: string_of(simp.as_slice()),
            pinyin: string_of(pinyin.as_slice()),
        },
    )
}

/// Parses one line of the word list, of the shape
/// `TRAD [SIMP] PINYIN GLOSSES`. The pronunciation is as many syllables as
/// the traditional form has characters, and is returned in ASCII with tone
/// digits. A line of another shape gives a message that names it.
pub fn parse_line(line: &str) -> (r: Result<ParsedLine, String>)
    ensures
        match r {
            Ok(p) => parsed_line(line@) == Some(p@),
            Err(message) => parsed_line(line@) is None && message@ == line_error(line@),
        },
{
    let chars = chars_of(line);
    match parse_line_chars(chars.as_slice()) {
        Some(p) => Ok(p),
        None => {
            let mut message = String::from_str("Could not parse Hanping word list line: ");
            message.append(line);
            Err(message)
        },
    }
}

/// The query that a parsed line makes: all three fields.
pub open spec fn line_query(p: ParsedLineView) -> SearchView {
    SearchView { simp: Some(p.simp), trad: Some(p.trad), pinyin: Some(p.pinyin) }
}

/// A line for which the dictionary has not exactly one entry, with the
/// number of entries that it has.
#[derive(Debug)]
pub struct Unclear {
    pub line: ParsedLine,
    pub entries: usize,
}

/// What an `Unclear` holds.
pub struct UnclearView {
    pub line: ParsedLineView,
    pub entries: nat,
}

impl View for Unclear {
    type V = UnclearView;

    open spec fn view(&self) -> UnclearView {
        UnclearView { line: self.line@, entries: self.entries as nat }
    }
}

/// What a word list gave: the notes, and the lines for which the dictionary
/// has not exactly one entry, both in the order of the list.
#[derive(Debug)]
pub struct HanpingNotes {
    pub notes: Vec<ChineseNote>,
    pub unclear: Vec<Unclear>,
}

/// What a `HanpingNotes` holds.
pub struct HanpingView {
    pub notes: Seq<NoteView>,
    pub unclear: Seq<UnclearView>,
}

impl View for HanpingNotes {
    type V = HanpingView;

    open spec fn view(&self) -> HanpingView {
        HanpingView { notes: views(self.notes@), unclear: views(self.unclear@) }
    }
}

/// `so_far` with the outcome for one more line, for which the dictionary has
/// the entries `found`: a note, without tags, for the last of them, if there
/// is one; and the line among the unclear, unless there is exactly one.
pub open spec fn with_line(
    so_far: HanpingView,
    line: ParsedLineView,
    found: Seq<EntryView>,
) -> HanpingView {
    HanpingView {
        notes: if found.len() > 0 {
            so_far.notes.push(NoteView { ce: found.last(), tags: Seq::empty() })
        } else {
            so_far.notes
        },
        unclear: if found.len() != 1 {
            so_far.unclear.push(UnclearView { line, entries: found.len() })
        } else {
            so_far.unclear
        },
    }
}

/// What the lines of a word list give, or the message for the first line
/// without the shape of a word-list line. The entries of a line are those
/// that have its three fields.
pub open spec fn notes_of_lines(entries: Seq<EntryView>, lines: Seq<Seq<char>>) -> Result<
    HanpingView,
    Seq<char>,
>
    decreases lines.len(),
{
    if lines.len() == 0 {
        Ok(HanpingView { notes: Seq::empty(), unclear: Seq::empty() })
    } else {
        match notes_of_lines(entries, lines.drop_last()) {
            Err(message) => Err(message),
            Ok(so_far) => match parsed_line(lines.last()) {
                None => Err(line_error(lines.last())),
                Some(p) => Ok(with_line(so_far, p, search_result(entries, line_query(p)))),
            },
        }
    }
}

/// Once a line has failed, the lines behind it change nothing.
pub proof fn lemma_error_stays(entries: Seq<EntryView>, lines: Seq<Seq<char>>, n: int)
    requires
        0 <= n <= lines.len(),
        notes_of_lines(entries, lines.take(n)) is Err,
    ensures
        notes_of_lines(entries, lines) == notes_of_lines(entries, lines.take(n)),
    decreases lines.len() - n,
{
    if n < lines.len() {
        assert(lines.take(n + 1).drop_last() == lines.take(n));
        lemma_error_stays(entries, lines, n + 1);
    } else {
        assert(lines.take(n) == lines);
    }
}

/// The notes for a word list, looked up in the given dictionary.
pub fn notes_from_dict(wordlist: &str, dict: &Dict) -> (r: Result<HanpingNotes, String>)
    ensures
        match r {
            Ok(notes) => notes_of_lines(dict@, split(wordlist@, '\n')) == Ok::<
                HanpingView,
                Seq<char>,
            >(notes@),
            Err(message) => notes_of_lines(dict@, split(wordlist@, '\n')) == Err::<
                HanpingView,
                Seq<char>,
            >(message@),
        },
{
    let chars = chars_of(wordlist);
    let lines = split_chars(chars.as_slice(), '\n');
    let mut notes: Vec<ChineseNote> = Vec::new();
    let mut unclear: Vec<Unclear> = Vec::new();
    let mut i: usize = 0;
    assert(views(notes@) == Seq::<NoteView>::empty());
    assert(views(unclear@) == Seq::<UnclearView>::empty());
    while i < lines.len()
        invariant
            i <= lines.len(),
            views(lines@) == split(wordlist@, '\n'),
            notes_of_lines(dict@, views(lines@).take(i as int)) == Ok::<HanpingView, Seq<char>>(
                HanpingView { notes: views(notes@), unclear: views(unclear@) },
            ),
        decreases lines.len() - i,
    {
        let ghost old_notes = views(notes@);
        let ghost old_unclear = views(unclear@);
        let ghost next = views(lines@).take(i + 1);
        assert(next.drop_last() == views(lines@).take(i as int));
        assert(next.last() == lines[i as int]@);
        let pl = match parse_line_chars(lines[i].as_slice()) {
            Some(pl) => pl,
            None => {
                let mut message = String::from_str("Could not parse Hanping word list line: ");
                message.append(string_of(lines[i].as_slice()).as_str());
                proof {
                    lemma_error_stays(dict@, views(lines@), i + 1);
                }
                return Err(message);
            },
        };
        let entries = dict.search(
            DictSearchParams {
                trad: Some(pl.trad.as_str()),
                simp: Some(pl.simp.as_str()),
                pinyin: Some(pl.pinyin.as_str()),
            },
        );
        if entries.len() > 0 {
            let ce = entries[entries.len() - 1].duplicate();
            let note = ChineseNote { ce, tags: Vec::new() };
            assert(views(note.tags@) == Seq::<Seq<char>>::empty());
            assert(views(entries@).last() == entries[entries.len() - 1]@);
            notes.push(note);
            assert(views(notes@) == old_notes.push(note@));
        }
        if entries.len() != 1 {
            let one = Unclear { line: pl, entries: entries.len() };
            unclear.push(one);
            assert(views(unclear@) == old_unclear.push(one@));
        }
        i += 1;
    }
    assert(views(lines@).take(lines.len() as int) == views(lines@));
    Ok(HanpingNotes { notes, unclear })
}

/// The notes for a word list. The dictionary is that of the two texts, the
/// entries of `extra_entries` first. Each line of the word list gives one
/// note, without tags, for the last entry that has its traditional form, its
/// simplified form and its pronunciation; a line for which the dictionary
/// has no entry gives none. The lines for which the dictionary has not
/// exactly one entry are handed back too. A line without the shape of a
/// word-list line ends the work with a message that names it.
pub fn get_chinese_notes(wordlist: &str, extra_entries: &str, dict_text: &str) -> (r: Result<
    HanpingNotes,
    String,
>)
    ensures
        match r {
            Ok(notes) => notes_of_lines(
                crate::index::entries_of_text(extra_entries@) + crate::index::entries_of_text(
                    dict_text@,
                ),
                split(wordlist@, '\n'),
            ) == Ok::<HanpingView, Seq<char>>(notes@),
            Err(message) => notes_of_lines(
                crate::index::entries_of_text(extra_entries@) + crate::index::entries_of_text(
                    dict_text@,
                ),
                split(wordlist@, '\n'),
            ) == Err::<HanpingView, Seq<char>>(message@),
        },
{
    let dict = Dict::new_with_extra_entries(extra_entries, dict_text);
    notes_from_dict(wordlist, &dict)
}

} // verus!
