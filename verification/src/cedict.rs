//! Dictionary entries: their model, and the parser of one dictionary line.

use crate::text::{
    begins_with, chars_of, copy_range, find, find_from, index_of, index_of_from, last_index,
    last_index_of, lemma_find, lemma_index_of, lemma_last_index_of, split, split_chars,
    starts_with, str_eq, string_of, views,
};
pub use crate::index::{Dict, DictSearchParams};
pub use crate::pinyin::pinyin_to_ascii;
use vstd::prelude::*;
use vstd::slice::slice_subrange;

verus! {

/// A measure word of an entry.
#[derive(Clone, PartialEq, Eq, Debug)]
pub struct Classifier {
    pub trad: String,
    pub simp: String,
    pub pinyin: String,
}

/// One sense of a headword.
#[derive(Clone, PartialEq, Eq, Debug)]
pub struct Entry {
    pub trad: String,
    pub simp: String,
    pub pinyin: String,
    /// The pronunciation used in Taiwan, or empty where the line gives none.
    pub tw_pinyin: String,
    pub defs: Vec<String>,
    pub clfrs: Vec<Classifier>,
}

/// What a `Classifier` holds, as character sequences.
pub struct ClassifierView {
    pub trad: Seq<char>,
    pub simp: Seq<char>,
    pub pinyin: Seq<char>,
}

/// What an `Entry` holds, as character sequences.
pub struct EntryView {
    pub trad: Seq<char>,
    pub simp: Seq<char>,
    pub pinyin: Seq<char>,
    pub tw_pinyin: Seq<char>,
    pub defs: Seq<Seq<char>>,
    pub clfrs: Seq<ClassifierView>,
}

impl View for Classifier {
    type V = ClassifierView;

    open spec fn view(&self) -> ClassifierView {
        ClassifierView { trad: self.trad@, simp: self.simp@, pinyin: self.pinyin@ }
    }
}

impl View for Entry {
    type V = EntryView;

    open spec fn view(&self) -> EntryView {
        EntryView {
            trad: self.trad@,
            simp: self.simp@,
            pinyin: self.pinyin@,
            tw_pinyin: self.tw_pinyin@,
            defs: views(self.defs@),
            clfrs: views(self.clfrs@),
        }
    }
}

impl Classifier {
    /// A copy of this classifier.
    pub fn duplicate(&self) -> (r: Classifier)
        ensures
            r@ == self@,
    {
        Classifier {
            trad: self.trad.clone(),
            simp: self.simp.clone(),
            pinyin: self.pinyin.clone(),
        }
    }
}

/// A copy of a list of strings.
pub fn duplicate_strings(items: &Vec<String>) -> (r: Vec<String>)
    ensures
        views(r@) == views(items@),
{
    let mut r: Vec<String> = Vec::new();
    let mut i: usize = 0;
    while i < items.len()
        invariant
            i <= items.len(),
            views(r@) == views(items@).take(i as int),
        decreases items.len() - i,
    {
        let ghost before = views(r@);
        let item = items[i].clone();
        r.push(item);
        assert(views(r@) == before.push(item@));
        i += 1;
    }
    r
}

/// A copy of a list of classifiers.
pub fn duplicate_classifiers(items: &Vec<Classifier>) -> (r: Vec<Classifier>)
    ensures
        views(r@) == views(items@),
{
    let mut r: Vec<Classifier> = Vec::new();
    let mut i: usize = 0;
    while i < items.len()
        invariant
            i <= items.len(),
            views(r@) == views(items@).take(i as int),
        decreases items.len() - i,
    {
        let ghost before = views(r@);
        let item = items[i].duplicate();
        r.push(item);
        assert(views(r@) == before.push(item@));
        i += 1;
    }
    r
}

impl Entry {
    /// A copy of this entry.
    pub fn duplicate(&self) -> (r: Entry)
        ensures
            r@ == self@,
    {
        Entry {
            trad: self.trad.clone(),
            simp: self.simp.clone(),
            pinyin: self.pinyin.clone(),
            tw_pinyin: self.tw_pinyin.clone(),
            defs: duplicate_strings(&self.defs),
            clfrs: duplicate_classifiers(&self.clfrs),
        }
    }
}

/// Whether two lists of strings hold the same strings.
pub fn same_strings(a: &Vec<String>, b: &Vec<String>) -> (r: bool)
    ensures
        r == (views(a@) == views(b@)),
{
    if a.len() != b.len() {
        assert(views(a@).len() != views(b@).len());
        return false;
    }
    let mut i: usize = 0;
    while i < a.len()
        invariant
            i <= a.len(),
            a.len() == b.len(),
            forall|k: int| 0 <= k < i ==> a@[k]@ == b@[k]@,
        decreases a.len() - i,
    {
        if !str_eq(a[i].as_str(), b[i].as_str()) {
            assert(views(a@)[i as int] != views(b@)[i as int]);
            return false;
        }
        i += 1;
    }
    assert(views(a@) =~= views(b@));
    true
}

impl Classifier {
    /// Whether two classifiers hold the same.
    pub fn same_as(&self, other: &Classifier) -> (r: bool)
        ensures
            r == (self@ == other@),
    {
        str_eq(self.trad.as_str(), other.trad.as_str()) && str_eq(
            self.simp.as_str(),
            other.simp.as_str(),
        ) && str_eq(self.pinyin.as_str(), other.pinyin.as_str())
    }
}

/// Whether two lists of classifiers hold the same classifiers.
pub fn same_classifiers(a: &Vec<Classifier>, b: &Vec<Classifier>) -> (r: bool)
    ensures
        r == (views(a@) == views(b@)),
{
    if a.len() != b.len() {
        assert(views(a@).len() != views(b@).len());
        return false;
    }
    let mut i: usize = 0;
    while i < a.len()
        invariant
            i <= a.len(),
            a.len() == b.len(),
            forall|k: int| 0 <= k < i ==> a@[k]@ == b@[k]@,
        decreases a.len() - i,
    {
        if !a[i].same_as(&b[i]) {
            assert(views(a@)[i as int] != views(b@)[i as int]);
            return false;
        }
        i += 1;
    }
    assert(views(a@) =~= views(b@));
    true
}

impl Entry {
    /// Whether two entries hold the same.
    pub fn same_as(&self, other: &Entry) -> (r: bool)
        ensures
            r == (self@ == other@),
    {
        str_eq(self.trad.as_str(), other.trad.as_str()) && str_eq(
            self.simp.as_str(),
            other.simp.as_str(),
        ) && str_eq(self.pinyin.as_str(), other.pinyin.as_str()) && str_eq(
            self.tw_pinyin.as_str(),
            other.tw_pinyin.as_str(),
        ) && same_strings(&self.defs, &other.defs) && same_classifiers(&self.clfrs, &other.clfrs)
    }
}

impl EntryView {
    /// Both written forms and the pronunciation are present.
    pub open spec fn well_formed(self) -> bool {
        self.trad.len() > 0 && self.simp.len() > 0 && self.pinyin.len() > 0
    }
}

/// A letter, a digit, a colon or a space: what a Taiwan pronunciation is
/// written with.
pub open spec fn is_reading_char(c: char) -> bool {
    ('a' <= c && c <= 'z') || ('A' <= c && c <= 'Z') || ('0' <= c && c <= '9') || c == ':' || c
        == ' '
}

/// The pronunciation inside a gloss of the exact shape `Taiwan pr. [X]`,
/// where `X` is one or more reading characters.
pub open spec fn taiwan_reading(gloss: Seq<char>) -> Option<Seq<char>> {
    let lead = "Taiwan pr. ["@;
    if starts_with(gloss, lead) && gloss.len() >= lead.len() + 2 && gloss.last() == ']' && (
    forall|i: int| lead.len() <= i < gloss.len() - 1 ==> is_reading_char(#[trigger] gloss[i])) {
        Some(gloss.subrange(lead.len() as int, gloss.len() - 1))
    } else {
        None
    }
}

/// Whether a gloss lists classifiers.
pub open spec fn is_classifier_gloss(gloss: Seq<char>) -> bool {
    starts_with(gloss, "CL:"@)
}

/// The first position at or after `from` that holds `[` or `|`.
pub open spec fn field_end(t: Seq<char>, from: int) -> Option<int>
    decreases t.len() - from,
{
    if from < 0 || from >= t.len() {
        None
    } else if t[from] == '[' || t[from] == '|' {
        Some(from)
    } else {
        field_end(t, from + 1)
    }
}

/// The classifier of shape `TRAD[PINYIN]` or `TRAD|SIMP[PINYIN]` that begins
/// at position `s` of `t`. The pronunciation runs up to the last `]` of `t`.
pub open spec fn classifier_at(t: Seq<char>, s: int) -> Option<ClassifierView> {
    match (field_end(t, s), last_index_of(t, ']')) {
        (Some(r), Some(e)) if s < r => {
            let bracket = if t[r] == '[' {
                Some(r)
            } else {
                match index_of(t, '[', r + 1) {
                    Some(r2) if r2 >= r + 2 => Some(r2),
                    _ => None,
                }
            };
            match bracket {
                Some(k) if e >= k + 2 => Some(
                    ClassifierView {
                        trad: t.subrange(s, r),
                        simp: if t[r] == '[' {
                            t.subrange(s, r)
                        } else {
                            t.subrange(r + 1, k)
                        },
                        pinyin: t.subrange(k + 1, e),
                    },
                ),
                _ => None,
            }
        },
        _ => None,
    }
}

/// The classifier at the leftmost position at or after `from` where one
/// begins.
pub open spec fn first_classifier(t: Seq<char>, from: int) -> Option<ClassifierView>
    decreases t.len() - from,
{
    if from < 0 || from >= t.len() {
        None
    } else {
        match classifier_at(t, from) {
            Some(c) => Some(c),
            None => first_classifier(t, from + 1),
        }
    }
}

/// The classifier that a piece of a classifier gloss denotes, if any.
pub open spec fn parse_classifier(t: Seq<char>) -> Option<ClassifierView> {
    first_classifier(t, 0)
}

/// The classifiers that the given pieces denote, in order; a piece that
/// denotes none is passed over.
pub open spec fn classifiers_of_pieces(pieces: Seq<Seq<char>>) -> Seq<ClassifierView>
    decreases pieces.len(),
{
    if pieces.len() == 0 {
        Seq::empty()
    } else {
        let head = classifiers_of_pieces(pieces.drop_last());
        match parse_classifier(pieces.last()) {
            Some(c) => head.push(c),
            None => head,
        }
    }
}

/// The classifiers that a classifier gloss lists, separated by commas.
pub open spec fn classifiers_of_gloss(gloss: Seq<char>) -> Seq<ClassifierView> {
    classifiers_of_pieces(split(gloss.subrange("CL:"@.len() as int, gloss.len() as int), ','))
}

/// The glosses that stay glosses: those that neither list classifiers nor
/// give the Taiwan pronunciation.
pub open spec fn kept_glosses(raw: Seq<Seq<char>>) -> Seq<Seq<char>>
    decreases raw.len(),
{
    if raw.len() == 0 {
        Seq::empty()
    } else {
        let head = kept_glosses(raw.drop_last());
        let g = raw.last();
        if is_classifier_gloss(g) || taiwan_reading(g) is Some {
            head
        } else {
            head.push(g)
        }
    }
}

/// All classifiers that the glosses list, in order.
pub open spec fn listed_classifiers(raw: Seq<Seq<char>>) -> Seq<ClassifierView>
    decreases raw.len(),
{
    if raw.len() == 0 {
        Seq::empty()
    } else {
        let head = listed_classifiers(raw.drop_last());
        let g = raw.last();
        if is_classifier_gloss(g) {
            head + classifiers_of_gloss(g)
        } else {
            head
        }
    }
}

/// The Taiwan pronunciation that the glosses give: that of the last gloss
/// which gives one, or empty.
pub open spec fn regional_reading(raw: Seq<Seq<char>>) -> Seq<char>
    decreases raw.len(),
{
    if raw.len() == 0 {
        Seq::empty()
    } else {
        let g = raw.last();
        if !is_classifier_gloss(g) && taiwan_reading(g) is Some {
            taiwan_reading(g)->0
        } else {
            regional_reading(raw.drop_last())
        }
    }
}

/// Where the fields of a dictionary line end.
pub struct FieldEnds {
    /// The position of the space behind the traditional form.
    pub trad_end: int,
    /// The position of the ` [` behind the simplified form.
    pub simp_end: int,
    /// The position of the `] /` behind the pronunciation.
    pub pinyin_end: int,
    /// The position of the `/` behind the last gloss.
    pub glosses_end: int,
}

/// Where the fields of a line without a line break end, if it has the shape
/// `TRAD SIMP [PINYIN] /GLOSS/GLOSS/`: the first field ends at the first
/// space, the second before the first ` [`, the third before the first
/// `] /`, and the glosses end at the last `/`. No field is empty.
pub open spec fn field_ends(t: Seq<char>) -> Option<FieldEnds> {
    match index_of(t, ' ', 1) {
        None => None,
        Some(a) => match find(t, " ["@, a + 2) {
            None => None,
            Some(b) => match find(t, "] /"@, b + 3) {
                None => None,
                Some(c) => match last_index_of(t, '/') {
                    Some(d) if d >= c + 4 => Some(
                        FieldEnds { trad_end: a, simp_end: b, pinyin_end: c, glosses_end: d },
                    ),
                    _ => None,
                },
            },
        },
    }
}

/// The glosses of a line as they stand between its slashes.
pub open spec fn raw_glosses(t: Seq<char>, ends: FieldEnds) -> Seq<Seq<char>> {
    split(t.subrange(ends.pinyin_end + 3, ends.glosses_end), '/')
}

/// The entry that a line without a line break denotes, if it has the shape
/// of a dictionary line.
pub open spec fn parse_segment(t: Seq<char>) -> Option<EntryView> {
    match field_ends(t) {
        Some(ends) => Some(
            EntryView {
                trad: t.subrange(0, ends.trad_end),
                simp: t.subrange(ends.trad_end + 1, ends.simp_end),
                pinyin: t.subrange(ends.simp_end + 2, ends.pinyin_end),
                tw_pinyin: regional_reading(raw_glosses(t, ends)),
                defs: kept_glosses(raw_glosses(t, ends)),
                clfrs: listed_classifiers(raw_glosses(t, ends)),
            },
        ),
        None => None,
    }
}

/// The pieces that denote no classifier, in order.
pub open spec fn unread_pieces(pieces: Seq<Seq<char>>) -> Seq<Seq<char>>
    decreases pieces.len(),
{
    if pieces.len() == 0 {
        Seq::empty()
    } else {
        let head = unread_pieces(pieces.drop_last());
        match parse_classifier(pieces.last()) {
            Some(_) => head,
            None => head.push(pieces.last()),
        }
    }
}

/// The pieces of the classifier glosses that denote no classifier, in order.
pub open spec fn unread_classifiers(raw: Seq<Seq<char>>) -> Seq<Seq<char>>
    decreases raw.len(),
{
    if raw.len() == 0 {
        Seq::empty()
    } else {
        let head = unread_classifiers(raw.drop_last());
        let g = raw.last();
        if is_classifier_gloss(g) {
            head + unread_pieces(split(g.subrange("CL:"@.len() as int, g.len() as int), ','))
        } else {
            head
        }
    }
}

/// Whether a gloss begins like a Taiwan pronunciation without being exactly
/// `Taiwan pr. [X]`. Such a gloss stays a gloss.
pub open spec fn is_unread_reading(gloss: Seq<char>) -> bool {
    starts_with(gloss, "Taiwan pr. "@) && !is_classifier_gloss(gloss) && taiwan_reading(
        gloss,
    ) is None
}

/// The glosses that begin like a Taiwan pronunciation without being exactly
/// one, in order.
pub open spec fn unread_readings(raw: Seq<Seq<char>>) -> Seq<Seq<char>>
    decreases raw.len(),
{
    if raw.len() == 0 {
        Seq::empty()
    } else {
        let head = unread_readings(raw.drop_last());
        if is_unread_reading(raw.last()) {
            head.push(raw.last())
        } else {
            head
        }
    }
}

/// The raw glosses of the first of the given segments that denotes an
/// entry.
pub open spec fn first_raw(segments: Seq<Seq<char>>, from: int) -> Option<Seq<Seq<char>>>
    decreases segments.len() - from,
{
    if from < 0 || from >= segments.len() {
        None
    } else {
        match field_ends(segments[from]) {
            Some(ends) => Some(raw_glosses(segments[from], ends)),
            None => first_raw(segments, from + 1),
        }
    }
}

/// What a dictionary line lists as classifiers without the shape of one.
pub open spec fn spec_malformed_classifiers(line: Seq<char>) -> Seq<Seq<char>> {
    match first_raw(split(line, '\n'), 0) {
        Some(raw) => unread_classifiers(raw),
        None => Seq::empty(),
    }
}

/// The glosses of a dictionary line that begin like a Taiwan pronunciation
/// without being exactly one.
pub open spec fn spec_malformed_readings(line: Seq<char>) -> Seq<Seq<char>> {
    match first_raw(split(line, '\n'), 0) {
        Some(raw) => unread_readings(raw),
        None => Seq::empty(),
    }
}

/// The entry of the first of the given segments that denotes one.
pub open spec fn first_parsed(segments: Seq<Seq<char>>, from: int) -> Option<EntryView>
    decreases segments.len() - from,
{
    if from < 0 || from >= segments.len() {
        None
    } else {
        match parse_segment(segments[from]) {
            Some(e) => Some(e),
            None => first_parsed(segments, from + 1),
        }
    }
}

/// The entry that a dictionary line denotes, if it denotes one. Where the
/// text holds line breaks, the first of its lines that denotes an entry
/// counts.
pub open spec fn spec_parse_entry(line: Seq<char>) -> Option<EntryView> {
    first_parsed(split(line, '\n'), 0)
}

/// Whether `c` is a letter, a digit, a colon or a space.
pub fn reading_char(c: char) -> (r: bool)
    ensures
        r == is_reading_char(c),
{
    ('a' <= c && c <= 'z') || ('A' <= c && c <= 'Z') || ('0' <= c && c <= '9') || c == ':' || c
        == ' '
}

/// The pronunciation inside a gloss of the exact shape `Taiwan pr. [X]`.
pub fn taiwan_reading_of(gloss: &[char]) -> (r: Option<Vec<char>>)
    ensures
        match r {
            Some(x) => taiwan_reading(gloss@) == Some(x@),
            None => taiwan_reading(gloss@) is None,
        },
{
    let lead = chars_of("Taiwan pr. [");
    proof {
        reveal_strlit("Taiwan pr. [");
    }
    if !begins_with(gloss, lead.as_slice()) {
        return None;
    }
    let n = gloss.len();
    if n < 14 || gloss[n - 1] != ']' {
        return None;
    }
    let mut i: usize = 12;
    while i < n - 1
        invariant
            12 <= i <= n - 1,
            n == gloss.len(),
            "Taiwan pr. ["@.len() == 12,
            forall|j: int| 12 <= j < i ==> is_reading_char(#[trigger] gloss@[j]),
        decreases n - i,
    {
        if !reading_char(gloss[i]) {
            assert(!is_reading_char(gloss@[i as int]));
            return None;
        }
        i += 1;
    }
    Some(copy_range(gloss, 12, n - 1))
}

/// The first position at or after `from` that holds `[` or `|`.
fn field_end_from(t: &[char], from: usize) -> (r: Option<usize>)
    ensures
        match r {
            Some(i) => field_end(t@, from as int) == Some(i as int) && from <= i < t.len(),
            None => field_end(t@, from as int) is None,
        },
{
    let mut i: usize = from;
    while i < t.len()
        invariant
            from <= i,
            field_end(t@, from as int) == field_end(t@, i as int),
        decreases t.len() - i,
    {
        if t[i] == '[' || t[i] == '|' {
            return Some(i);
        }
        i += 1;
    }
    None
}

/// The classifier that begins at position `s` of `t`, if one does.
pub fn classifier_at_position(t: &[char], s: usize) -> (r: Option<Classifier>)
    ensures
        match r {
            Some(c) => classifier_at(t@, s as int) == Some(c@),
            None => classifier_at(t@, s as int) is None,
        },
{
    let r = match field_end_from(t, s) {
        Some(r) => r,
        None => {
            return None;
        },
    };
    let e = match last_index(t, ']') {
        Some(e) => e,
        None => {
            return None;
        },
    };
    proof {
        lemma_last_index_of(t@, ']');
    }
    if r <= s {
        return None;
    }
    let k = if t[r] == '[' {
        r
    } else {
        proof {
            lemma_index_of(t@, '[', r + 1);
        }
        match index_of_from(t, '[', r + 1) {
            Some(r2) => {
                if r2 - r < 2 {
                    return None;
                }
                r2
            },
            None => {
                return None;
            },
        }
    };
    if e < k || e - k < 2 {
        return None;
    }
    let trad = string_of(slice_subrange(t, s, r));
    let simp = if t[r] == '[' {
        string_of(slice_subrange(t, s, r))
    } else {
        string_of(slice_subrange(t, r + 1, k))
    };
    let pinyin = string_of(slice_subrange(t, k + 1, e));
    Some(Classifier { trad, simp, pinyin })
}

/// The classifier that a piece of a classifier gloss denotes, if any.
pub fn parse_classifier_chars(t: &[char]) -> (r: Option<Classifier>)
    ensures
        match r {
            Some(c) => parse_classifier(t@) == Some(c@),
            None => parse_classifier(t@) is None,
        },
{
    let mut s: usize = 0;
    while s < t.len()
        invariant
            first_classifier(t@, 0) == first_classifier(t@, s as int),
        decreases t.len() - s,
    {
        match classifier_at_position(t, s) {
            Some(c) => {
                return Some(c);
            },
            None => {},
        }
        s += 1;
    }
    None
}

/// The classifiers that a classifier gloss lists.
pub fn classifiers_of(gloss: &[char]) -> (r: Vec<Classifier>)
    requires
        is_classifier_gloss(gloss@),
    ensures
        views(r@) == classifiers_of_gloss(gloss@),
{
    proof {
        reveal_strlit("CL:");
    }
    let pieces = split_chars(slice_subrange(gloss, 3, gloss.len()), ',');
    let mut found: Vec<Classifier> = Vec::new();
    let mut i: usize = 0;
    assert(views(found@) == Seq::<ClassifierView>::empty());
    while i < pieces.len()
        invariant
            i <= pieces.len(),
            views(found@) == classifiers_of_pieces(views(pieces@).take(i as int)),
        decreases pieces.len() - i,
    {
        let ghost before = views(found@);
        proof {
            assert(views(pieces@).take(i + 1).drop_last() == views(pieces@).take(i as int));
        }
        match parse_classifier_chars(pieces[i].as_slice()) {
            Some(c) => {
                found.push(c);
                assert(views(found@) == before.push(c@));
            },
            None => {},
        }
        i += 1;
    }
    assert(views(pieces@).take(pieces.len() as int) == views(pieces@));
    found
}

/// Sorts the raw glosses of a line into the glosses that stay, the
/// classifiers that are listed and the Taiwan pronunciation.
pub fn extract_glosses(raw: &Vec<Vec<char>>) -> (r: (Vec<String>, Vec<Classifier>, String))
    ensures
        views(r.0@) == kept_glosses(views(raw@)),
        views(r.1@) == listed_classifiers(views(raw@)),
        r.2@ == regional_reading(views(raw@)),
{
    let marker = chars_of("CL:");
    let mut defs: Vec<String> = Vec::new();
    let mut clfrs: Vec<Classifier> = Vec::new();
    let mut tw_pinyin = String::new();
    let mut i: usize = 0;
    assert(views(defs@) == Seq::<Seq<char>>::empty());
    assert(views(clfrs@) == Seq::<ClassifierView>::empty());
    while i < raw.len()
        invariant
            i <= raw.len(),
            marker@ == "CL:"@,
            views(defs@) == kept_glosses(views(raw@).take(i as int)),
            views(clfrs@) == listed_classifiers(views(raw@).take(i as int)),
            tw_pinyin@ == regional_reading(views(raw@).take(i as int)),
        decreases raw.len() - i,
    {
        let ghost old_defs = views(defs@);
        let ghost old_clfrs = views(clfrs@);
        proof {
            assert(views(raw@).take(i + 1).drop_last() == views(raw@).take(i as int));
        }
        let gloss = raw[i].as_slice();
        if begins_with(gloss, marker.as_slice()) {
            let mut listed = classifiers_of(gloss);
            let ghost added = views(listed@);
            clfrs.append(&mut listed);
            assert(views(clfrs@) == old_clfrs + added);
        } else {
            match taiwan_reading_of(gloss) {
                Some(reading) => {
                    tw_pinyin = string_of(reading.as_slice());
                },
                None => {
                    let kept = string_of(gloss);
                    defs.push(kept);
                    assert(views(defs@) == old_defs.push(kept@));
                },
            }
        }
        i += 1;
    }
    assert(views(raw@).take(raw.len() as int) == views(raw@));
    (defs, clfrs, tw_pinyin)
}

/// Where the fields of a dictionary line end, as found at run time.
struct Ends {
    trad_end: usize,
    simp_end: usize,
    pinyin_end: usize,
    glosses_end: usize,
}

impl Ends {
    spec fn ends(self) -> FieldEnds {
        FieldEnds {
            trad_end: self.trad_end as int,
            simp_end: self.simp_end as int,
            pinyin_end: self.pinyin_end as int,
            glosses_end: self.glosses_end as int,
        }
    }
}

/// Where the fields of a line without a line break end.
fn find_ends(t: &[char]) -> (r: Option<Ends>)
    ensures
        match r {
            Some(e) => field_ends(t@) == Some(e.ends()) && 1 <= e.trad_end && e.trad_end + 2
                <= e.simp_end && e.simp_end + 3 <= e.pinyin_end && e.pinyin_end + 4
                <= e.glosses_end < t.len(),
            None => field_ends(t@) is None,
        },
{
    proof {
        reveal_strlit(" [");
        reveal_strlit("] /");
    }
    let a = match index_of_from(t, ' ', 1) {
        Some(a) => a,
        None => {
            return None;
        },
    };
    proof {
        lemma_index_of(t@, ' ', 1);
    }
    if t.len() - a < 4 {
        return None;
    }
    let b = match find_from(t, chars_of(" [").as_slice(), a + 2) {
        Some(b) => b,
        None => {
            return None;
        },
    };
    proof {
        lemma_find(t@, " ["@, a + 2);
    }
    if t.len() - b < 6 {
        return None;
    }
    let c = match find_from(t, chars_of("] /").as_slice(), b + 3) {
        Some(c) => c,
        None => {
            return None;
        },
    };
    proof {
        lemma_find(t@, "] /"@, b + 3);
        lemma_last_index_of(t@, '/');
        assert(t@.subrange(c as int, c + 3)[2] == '/');
    }
    let d = match last_index(t, '/') {
        Some(d) => d,
        None => {
            return None;
        },
    };
    if d - c < 4 {
        return None;
    }
    Some(Ends { trad_end: a, simp_end: b, pinyin_end: c, glosses_end: d })
}

/// The entry that a line without a line break denotes, if it denotes one.
pub fn parse_segment_chars(t: &[char]) -> (r: Option<Entry>)
    ensures
        match r {
            Some(e) => parse_segment(t@) == Some(e@),
            None => parse_segment(t@) is None,
        },
{
    let ends = match find_ends(t) {
        Some(ends) => ends,
        None => {
            return None;
        },
    };
    let raw = split_chars(slice_subrange(t, ends.pinyin_end + 3, ends.glosses_end), '/');
    let (defs, clfrs, tw_pinyin) = extract_glosses(&raw);
    Some(
        Entry {
            trad: string_of(slice_subrange(t, 0, ends.trad_end)),
            simp: string_of(slice_subrange(t, ends.trad_end + 1, ends.simp_end)),
            pinyin: string_of(slice_subrange(t, ends.simp_end + 2, ends.pinyin_end)),
            tw_pinyin,
            defs,
            clfrs,
        },
    )
}

/// Appends to `unread` the pieces of a classifier gloss that denote no
/// classifier.
fn push_unread(unread: &mut Vec<String>, gloss: &[char])
    requires
        is_classifier_gloss(gloss@),
    ensures
        views(final(unread)@) == views(old(unread)@) + unread_pieces(
            split(gloss@.subrange("CL:"@.len() as int, gloss@.len() as int), ','),
        ),
{
    proof {
        reveal_strlit("CL:");
    }
    let pieces = split_chars(slice_subrange(gloss, 3, gloss.len()), ',');
    let mut i: usize = 0;
    assert(views(unread@) == views(old(unread)@) + Seq::<Seq<char>>::empty());
    while i < pieces.len()
        invariant
            i <= pieces.len(),
            views(unread@) == views(old(unread)@) + unread_pieces(views(pieces@).take(i as int)),
        decreases pieces.len() - i,
    {
        let ghost before = views(unread@);
        assert(views(pieces@).take(i + 1).drop_last() == views(pieces@).take(i as int));
        if parse_classifier_chars(pieces[i].as_slice()).is_none() {
            let piece = string_of(pieces[i].as_slice());
            unread.push(piece);
            assert(views(unread@) == before.push(piece@));
            assert(views(unread@) == views(old(unread)@) + unread_pieces(
                views(pieces@).take(i + 1),
            ));
        }
        i += 1;
    }
    assert(views(pieces@).take(pieces.len() as int) == views(pieces@));
}

/// The pieces of the classifier glosses that denote no classifier.
fn unread_of(raw: &Vec<Vec<char>>) -> (unread: Vec<String>)
    ensures
        views(unread@) == unread_classifiers(views(raw@)),
{
    let marker = chars_of("CL:");
    let mut unread: Vec<String> = Vec::new();
    let mut i: usize = 0;
    assert(views(unread@) == Seq::<Seq<char>>::empty());
    while i < raw.len()
        invariant
            i <= raw.len(),
            marker@ == "CL:"@,
            views(unread@) == unread_classifiers(views(raw@).take(i as int)),
        decreases raw.len() - i,
    {
        assert(views(raw@).take(i + 1).drop_last() == views(raw@).take(i as int));
        if begins_with(raw[i].as_slice(), marker.as_slice()) {
            push_unread(&mut unread, raw[i].as_slice());
        }
        i += 1;
    }
    assert(views(raw@).take(raw.len() as int) == views(raw@));
    unread
}

/// The raw glosses of the first line of a text that denotes an entry.
fn raw_glosses_of(line: &str) -> (r: Option<Vec<Vec<char>>>)
    ensures
        match r {
            Some(raw) => first_raw(split(line@, '\n'), 0) == Some(views(raw@)),
            None => first_raw(split(line@, '\n'), 0) is None,
        },
{
    let chars = chars_of(line);
    let segments = split_chars(chars.as_slice(), '\n');
    let mut i: usize = 0;
    while i < segments.len()
        invariant
            views(segments@) == split(line@, '\n'),
            first_raw(views(segments@), 0) == first_raw(views(segments@), i as int),
        decreases segments.len() - i,
    {
        let t = segments[i].as_slice();
        match find_ends(t) {
            Some(ends) => {
                return Some(
                    split_chars(slice_subrange(t, ends.pinyin_end + 3, ends.glosses_end), '/'),
                );
            },
            None => {},
        }
        i += 1;
    }
    None
}

/// What a dictionary line lists as classifiers without the shape of one:
/// the pieces of its `CL:` glosses, between commas, that are neither
/// `TRAD[PINYIN]` nor `TRAD|SIMP[PINYIN]`. They are left out of the entry.
/// A line that denotes no entry has none.
pub fn malformed_classifiers(line: &str) -> (unread: Vec<String>)
    ensures
        views(unread@) == spec_malformed_classifiers(line@),
{
    match raw_glosses_of(line) {
        Some(raw) => unread_of(&raw),
        None => {
            let unread: Vec<String> = Vec::new();
            assert(views(unread@) == Seq::<Seq<char>>::empty());
            unread
        },
    }
}

/// The glosses of a dictionary line that begin with `Taiwan pr. ` without
/// having the exact shape `Taiwan pr. [PINYIN]`. They stay glosses of the
/// entry. A line that denotes no entry has none.
pub fn malformed_readings(line: &str) -> (unread: Vec<String>)
    ensures
        views(unread@) == spec_malformed_readings(line@),
{
    let mut unread: Vec<String> = Vec::new();
    assert(views(unread@) == Seq::<Seq<char>>::empty());
    let raw = match raw_glosses_of(line) {
        Some(raw) => raw,
        None => {
            return unread;
        },
    };
    let marker = chars_of("CL:");
    let lead = chars_of("Taiwan pr. ");
    let mut i: usize = 0;
    while i < raw.len()
        invariant
            i <= raw.len(),
            marker@ == "CL:"@,
            lead@ == "Taiwan pr. "@,
            views(unread@) == unread_readings(views(raw@).take(i as int)),
        decreases raw.len() - i,
    {
        let ghost before = views(unread@);
        assert(views(raw@).take(i + 1).drop_last() == views(raw@).take(i as int));
        let gloss = raw[i].as_slice();
        if begins_with(gloss, lead.as_slice()) && !begins_with(gloss, marker.as_slice())
            && taiwan_reading_of(gloss).is_none() {
            let kept = string_of(gloss);
            unread.push(kept);
            assert(views(unread@) == before.push(kept@));
        }
        i += 1;
    }
    assert(views(raw@).take(raw.len() as int) == views(raw@));
    unread
}

/// Parses one dictionary line of the shape
/// `TRAD SIMP [PINYIN] /GLOSS/GLOSS/`. A gloss that begins with `CL:` is
/// taken out and read as a list of classifiers; a gloss of the exact shape
/// `Taiwan pr. [PINYIN]` is taken out and kept as the Taiwan pronunciation.
/// A line of another shape, such as a comment, gives `None`.
pub fn parse_entry(line: &str) -> (r: Option<Entry>)
    ensures
        match r {
            Some(e) => spec_parse_entry(line@) == Some(e@) && e@.well_formed(),
            None => spec_parse_entry(line@) is None,
        },
{
    let chars = chars_of(line);
    let segments = split_chars(chars.as_slice(), '\n');
    let mut i: usize = 0;
    while i < segments.len()
        invariant
            views(segments@) == split(line@, '\n'),
            first_parsed(views(segments@), 0) == first_parsed(views(segments@), i as int),
        decreases segments.len() - i,
    {
        match parse_segment_chars(segments[i].as_slice()) {
            Some(e) => {
                proof {
                    lemma_parsed_well_formed(segments[i as int]@);
                }
                return Some(e);
            },
            None => {},
        }
        i += 1;
    }
    None
}

/// No field of a parsed entry is empty.
pub proof fn lemma_parsed_well_formed(t: Seq<char>)
    requires
        parse_segment(t) is Some,
    ensures
        parse_segment(t)->0.well_formed(),
{
    reveal_strlit(" [");
    reveal_strlit("] /");
    lemma_index_of(t, ' ', 1);
    let a = index_of(t, ' ', 1)->0;
    lemma_find(t, " ["@, a + 2);
    let b = find(t, " ["@, a + 2)->0;
    lemma_find(t, "] /"@, b + 3);
}

/// Every gloss that stays a gloss is one of the raw glosses, lists no
/// classifiers and gives no Taiwan pronunciation.
pub proof fn lemma_kept_glosses(raw: Seq<Seq<char>>)
    ensures
        forall|k: int|
            0 <= k < kept_glosses(raw).len() ==> {
                &&& raw.contains(#[trigger] kept_glosses(raw)[k])
                &&& !is_classifier_gloss(kept_glosses(raw)[k])
                &&& taiwan_reading(kept_glosses(raw)[k]) is None
            },
    decreases raw.len(),
{
    if raw.len() > 0 {
        lemma_kept_glosses(raw.drop_last());
        let head = kept_glosses(raw.drop_last());
        let kept = kept_glosses(raw);
        assert forall|k: int| 0 <= k < kept.len() implies {
            &&& raw.contains(#[trigger] kept[k])
            &&& !is_classifier_gloss(kept[k])
            &&& taiwan_reading(kept[k]) is None
        } by {
            if k < head.len() {
                assert(kept[k] == head[k]);
                let front = raw.drop_last();
                let j = choose|j: int| 0 <= j < front.len() && front[j] == head[k];
                assert(raw[j] == kept[k]);
            } else {
                assert(kept[k] == raw[raw.len() - 1]);
            }
        }
    }
}

/// A gloss that gives the Taiwan pronunciation lists no classifiers.
pub proof fn lemma_taiwan_gloss_lists_nothing(g: Seq<char>)
    requires
        taiwan_reading(g) is Some,
    ensures
        !is_classifier_gloss(g),
{
    reveal_strlit("Taiwan pr. [");
    reveal_strlit("CL:");
    assert(g.subrange(0, 12)[0] == 'T');
    if is_classifier_gloss(g) {
        assert(g.subrange(0, 3)[0] == 'C');
    }
}

/// The last gloss of the exact shape `Taiwan pr. [X]` is taken out of the
/// glosses, and its `X` is the Taiwan pronunciation.
pub proof fn law_taiwan_gloss_is_taken_out(raw: Seq<Seq<char>>, i: int)
    requires
        0 <= i < raw.len(),
        taiwan_reading(raw[i]) is Some,
        forall|j: int| i < j < raw.len() ==> taiwan_reading(#[trigger] raw[j]) is None,
    ensures
        regional_reading(raw) == taiwan_reading(raw[i])->0,
        !kept_glosses(raw).contains(raw[i]),
    decreases raw.len(),
{
    lemma_kept_glosses(raw);
    lemma_taiwan_gloss_lists_nothing(raw[i]);
    if i < raw.len() - 1 {
        assert(taiwan_reading(raw[raw.len() - 1]) is None);
        let front = raw.drop_last();
        assert forall|j: int| i < j < front.len() implies taiwan_reading(
            #[trigger] front[j],
        ) is None by {
            assert(front[j] == raw[j]);
        }
        law_taiwan_gloss_is_taken_out(front, i);
    }
}

/// Without a gloss of the exact shape `Taiwan pr. [X]` the Taiwan
/// pronunciation is empty.
pub proof fn law_no_taiwan_gloss(raw: Seq<Seq<char>>)
    requires
        forall|j: int| 0 <= j < raw.len() ==> taiwan_reading(#[trigger] raw[j]) is None,
    ensures
        regional_reading(raw) == Seq::<char>::empty(),
    decreases raw.len(),
{
    if raw.len() > 0 {
        assert(taiwan_reading(raw[raw.len() - 1]) is None);
        let front = raw.drop_last();
        assert forall|j: int| 0 <= j < front.len() implies taiwan_reading(
            #[trigger] front[j],
        ) is None by {
            assert(front[j] == raw[j]);
        }
        law_no_taiwan_gloss(front);
    }
}

} // verus!
