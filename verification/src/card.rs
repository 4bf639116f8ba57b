//! What a note shows on its cards: the glosses as a list, the classifiers,
//! the other words with the same pronunciation, and the note's identifier.

use crate::cedict::{Classifier, ClassifierView, Entry, EntryView};
use crate::chinese_note::{ChineseNote, NoteView};
use crate::index::{lowercase, lowercase_chars};
use crate::pinyin::{display_pinyin, prettify_pinyin_chars};
use crate::text::{
    begins_with, chars_eq, chars_of, join_with, push_all, starts_with, str_eq, string_of, views,
};
use crypto::digest::Digest;
use vstd::prelude::*;

verus! {

/// The SHA-256 digest of the UTF-8 bytes of a text.
pub uninterp spec fn sha256_of(message: Seq<char>) -> Seq<u8>;

/// The SHA-256 digest of a text.
///
/// Trusted: feeds the text to `crypto::sha2::Sha256` with `input_str` and
/// reads the digest with `result`, which writes 32 bytes that depend on the
/// text alone. `input_str` stops the program on a text of 2^61 bytes or more,
/// so such a text is not admitted.
#[verifier::external_body]
fn sha256(message: &str) -> (digest: Vec<u8>)
    requires
        message.len() < 0x2000_0000_0000_0000,
    ensures
        digest@ == sha256_of(message@),
        digest@.len() == 32,
{
    let mut sha = crypto::sha2::Sha256::new();
    sha.input_str(message);
    let mut out: Vec<u8> = vec![0u8; 32];
    sha.result(&mut out);
    out
}

/// The 91 characters that an identifier is written with, by value.
pub open spec fn base91_table() -> Seq<char> {
    "abcdefghijklmnopqrstuvwxyzABCDEFGHIJKLMNOPQRSTUVWXYZ0123456789!#$%&()*+,-./:;<=>?@[]^_`{|}~"@
}

/// The number that the bytes spell, the first byte weighing most.
pub open spec fn be_value(bytes: Seq<u8>) -> nat
    decreases bytes.len(),
{
    if bytes.len() == 0 {
        0
    } else {
        be_value(bytes.drop_last()) * 256 + bytes.last() as nat
    }
}

/// The base-91 digits of a number, the lowest first. Zero has no digit.
pub open spec fn base91_low_first(value: nat) -> Seq<char>
    decreases value,
{
    if value == 0 {
        Seq::empty()
    } else {
        seq![base91_table()[(value % 91) as int]] + base91_low_first(value / 91)
    }
}

/// The identifier made from a digest: the number that its first eight bytes
/// spell, in base 91, the highest digit first.
pub open spec fn guid_of_digest(digest: Seq<u8>) -> Seq<char> {
    base91_low_first(be_value(digest.take(8))).reverse()
}

/// The number that eight bytes spell fits in 64 bits.
pub proof fn lemma_be_value_bound(bytes: Seq<u8>)
    ensures
        bytes.len() <= 8 ==> be_value(bytes) < pow256(bytes.len()),
    decreases bytes.len(),
{
    if bytes.len() > 0 && bytes.len() <= 8 {
        lemma_be_value_bound(bytes.drop_last());
        assert(pow256(bytes.len()) == 256 * pow256((bytes.len() - 1) as nat));
    }
}

/// 256 to the power of `n`.
pub open spec fn pow256(n: nat) -> nat
    decreases n,
{
    if n == 0 {
        1
    } else {
        256 * pow256((n - 1) as nat)
    }
}

/// The identifier made from a digest of at least eight bytes.
pub fn guid_from_digest(digest: &[u8]) -> (guid: String)
    requires
        digest.len() >= 8,
    ensures
        guid@ == guid_of_digest(digest@),
{
    let mut val: u64 = 0;
    let mut i: usize = 0;
    while i < 8
        invariant
            i <= 8 <= digest.len(),
            val == be_value(digest@.take(i as int)),
        decreases 8 - i,
    {
        proof {
            lemma_be_value_bound(digest@.take(i as int));
            assert(digest@.take(i + 1).drop_last() == digest@.take(i as int));
            assert(pow256(7) == 0x100_0000_0000_0000) by {
                assert(pow256(0) == 1);
                assert(pow256(1) == 256);
                assert(pow256(2) == 0x1_0000);
                assert(pow256(3) == 0x100_0000);
                assert(pow256(4) == 0x1_0000_0000);
                assert(pow256(5) == 0x100_0000_0000);
                assert(pow256(6) == 0x1_0000_0000_0000);
            }
            lemma_pow256_monotonic(i as nat, 7);
        }
        val = val * 256 + digest[i] as u64;
        i += 1;
    }
    let table = chars_of(
        "abcdefghijklmnopqrstuvwxyzABCDEFGHIJKLMNOPQRSTUVWXYZ0123456789!#$%&()*+,-./:;<=>?@[]^_`{|}~",
    );
    proof {
        reveal_strlit(
            "abcdefghijklmnopqrstuvwxyzABCDEFGHIJKLMNOPQRSTUVWXYZ0123456789!#$%&()*+,-./:;<=>?@[]^_`{|}~",
        );
    }
    let ghost start = val as nat;
    let mut low_first: Vec<char> = Vec::new();
    while val > 0
        invariant
            table@ == base91_table(),
            table@.len() == 91,
            base91_low_first(start) == low_first@ + base91_low_first(val as nat),
        decreases val,
    {
        let ghost before = low_first@;
        let ghost rest = base91_low_first((val / 91) as nat);
        low_first.push(table[(val % 91) as usize]);
        assert(before + (seq![base91_table()[(val % 91) as int]] + rest) == low_first@ + rest);
        val = val / 91;
    }
    assert(base91_low_first(start) == low_first@);
    let mut out: Vec<char> = Vec::new();
    let mut n: usize = low_first.len();
    while n > 0
        invariant
            n <= low_first.len(),
            out@.len() == low_first.len() - n,
            forall|k: int|
                0 <= k < out@.len() ==> out@[k] == low_first@[low_first.len() - 1 - k],
        decreases n,
    {
        out.push(low_first[n - 1]);
        n -= 1;
    }
    assert(out@ == low_first@.reverse());
    string_of(out.as_slice())
}

/// A higher power of 256 is not smaller.
pub proof fn lemma_pow256_monotonic(a: nat, b: nat)
    requires
        a <= b,
    ensures
        pow256(a) <= pow256(b),
    decreases b,
{
    if a < b {
        lemma_pow256_monotonic(a, (b - 1) as nat);
    }
}

/// The identifier of a note: made from the SHA-256 digest of the text that
/// names the note.
pub fn guid_from_str(s: &str) -> (guid: String)
    requires
        s.len() < 0x2000_0000_0000_0000,
    ensures
        guid@ == guid_of_digest(sha256_of(s@)),
{
    let digest = sha256(s);
    guid_from_digest(digest.as_slice())
}

/// Whether a gloss is left out of the list of glosses.
pub open spec fn is_hidden_gloss(g: Seq<char>) -> bool {
    starts_with(g, "variant of "@) || starts_with(g, "old variant of "@) || starts_with(
        g,
        "also written "@,
    )
}

/// One gloss as a list item.
pub open spec fn gloss_item(g: Seq<char>) -> Seq<char> {
    "<li>"@ + g + "</li>"@
}

/// The list items of the glosses that are shown, a space between
/// neighbours.
pub open spec fn gloss_items(items: Seq<Seq<char>>) -> Seq<char>
    decreases items.len(),
{
    if items.len() == 0 {
        Seq::empty()
    } else {
        let head = gloss_items(items.drop_last());
        if is_hidden_gloss(items.last()) {
            head
        } else if head.len() == 0 {
            gloss_item(items.last())
        } else {
            head.push(' ') + gloss_item(items.last())
        }
    }
}

/// The glosses as an ordered list. Nothing is escaped.
pub open spec fn defs_html(items: Seq<Seq<char>>) -> Seq<char> {
    "<ol>"@ + gloss_items(items) + "</ol>"@
}

/// The two written forms of a word: one form where they are equal, else
/// both with a bar between them, the traditional one first if `trad_first`.
pub open spec fn both_forms(trad: Seq<char>, simp: Seq<char>, trad_first: bool) -> Seq<char> {
    if simp == trad {
        simp
    } else if trad_first {
        trad.push('|') + simp
    } else {
        simp.push('|') + trad
    }
}

/// A classifier as shown: its forms, then its pronunciation in brackets.
pub open spec fn clfr_str(c: ClassifierView, trad_first: bool) -> Seq<char> {
    both_forms(c.trad, c.simp, trad_first).push('(') + display_pinyin(c.pinyin) + seq![')']
}

/// Whether a gloss is left out of the list of glosses.
pub fn hidden_gloss(g: &[char]) -> (r: bool)
    ensures
        r == is_hidden_gloss(g@),
{
    begins_with(g, chars_of("variant of ").as_slice()) || begins_with(
        g,
        chars_of("old variant of ").as_slice(),
    ) || begins_with(g, chars_of("also written ").as_slice())
}

/// The glosses as an ordered list, without those that begin with
/// `variant of `, `old variant of ` or `also written `. Nothing is escaped.
pub fn make_defs_html(items: &Vec<String>) -> (html: String)
    ensures
        html@ == defs_html(views(items@)),
{
    let mut body: Vec<char> = Vec::new();
    let mut i: usize = 0;
    while i < items.len()
        invariant
            i <= items.len(),
            body@ == gloss_items(views(items@).take(i as int)),
        decreases items.len() - i,
    {
        assert(views(items@).take(i + 1).drop_last() == views(items@).take(i as int));
        let item = chars_of(items[i].as_str());
        if !hidden_gloss(item.as_slice()) {
            let ghost head = body@;
            if body.len() > 0 {
                body.push(' ');
            }
            let ghost lead = body@;
            push_all(&mut body, chars_of("<li>").as_slice());
            push_all(&mut body, item.as_slice());
            push_all(&mut body, chars_of("</li>").as_slice());
            assert(body@ == lead + gloss_item(item@));
            proof {
                if head.len() == 0 {
                    assert(lead + gloss_item(item@) == gloss_item(item@));
                }
            }
        }
        i += 1;
    }
    assert(views(items@).take(items.len() as int) == views(items@));
    let mut out: Vec<char> = chars_of("<ol>");
    push_all(&mut out, body.as_slice());
    push_all(&mut out, chars_of("</ol>").as_slice());
    string_of(out.as_slice())
}

/// The two written forms of a word.
fn forms(trad: &str, simp: &str, trad_first: bool) -> (out: Vec<char>)
    ensures
        out@ == both_forms(trad@, simp@, trad_first),
{
    if str_eq(simp, trad) {
        chars_of(simp)
    } else if trad_first {
        let mut out = chars_of(trad);
        out.push('|');
        push_all(&mut out, chars_of(simp).as_slice());
        out
    } else {
        let mut out = chars_of(simp);
        out.push('|');
        push_all(&mut out, chars_of(trad).as_slice());
        out
    }
}

/// A classifier as shown on a card: its forms, then its pronunciation with
/// tone marks in brackets.
pub fn make_clfr_str(clfr: &Classifier, trad_first: bool) -> (r: String)
    ensures
        r@ == clfr_str(clfr@, trad_first),
{
    let mut out = forms(clfr.trad.as_str(), clfr.simp.as_str(), trad_first);
    out.push('(');
    let pinyin = prettify_pinyin_chars(chars_of(clfr.pinyin.as_str()).as_slice());
    push_all(&mut out, pinyin.as_slice());
    out.push(')');
    string_of(out.as_slice())
}

/// The positions of the notes that have the pronunciation `key`, which is
/// given in lower case. A note whose Taiwan pronunciation is `key` too
/// stands twice.
pub open spec fn pinyin_dupes(notes: Seq<NoteView>, key: Seq<char>) -> Seq<int>
    decreases notes.len(),
{
    if notes.len() == 0 {
        Seq::empty()
    } else {
        let head = pinyin_dupes(notes.drop_last(), key);
        let ce = notes.last().ce;
        let by_pinyin = if lowercase(ce.pinyin) == key {
            head.push(notes.len() - 1)
        } else {
            head
        };
        if ce.tw_pinyin.len() > 0 && lowercase(ce.tw_pinyin) == key {
            by_pinyin.push(notes.len() - 1)
        } else {
            by_pinyin
        }
    }
}

/// One word with the same pronunciation, as shown.
pub open spec fn dupe_span(e: EntryView, trad_first: bool) -> Seq<char> {
    "<span class=\"nobr\">"@ + both_forms(e.trad, e.simp, trad_first) + "</span>"@
}

/// `shown` with the words at the given positions behind it, but for those
/// equal to `e`. An en space stands between neighbours.
pub open spec fn with_dupes(
    shown: Seq<char>,
    notes: Seq<NoteView>,
    positions: Seq<int>,
    e: EntryView,
    trad_first: bool,
) -> Seq<char>
    decreases positions.len(),
{
    if positions.len() == 0 {
        shown
    } else {
        let head = with_dupes(shown, notes, positions.drop_last(), e, trad_first);
        let dupe = notes[positions.last()].ce;
        if dupe == e {
            head
        } else if head.len() == 0 {
            dupe_span(dupe, trad_first)
        } else {
            head.push('\u{2002}') + dupe_span(dupe, trad_first)
        }
    }
}

/// The other words among the notes with the pronunciation of `e`, then
/// those with its Taiwan pronunciation. Where no note has one of the two
/// pronunciations, the text ends with what came before it.
pub open spec fn dupe_string(notes: Seq<NoteView>, e: EntryView, trad_first: bool) -> Seq<char> {
    let first = pinyin_dupes(notes, lowercase(e.pinyin));
    let second = pinyin_dupes(notes, lowercase(e.tw_pinyin));
    if first.len() == 0 {
        Seq::empty()
    } else {
        let shown = with_dupes(Seq::empty(), notes, first, e, trad_first);
        if e.tw_pinyin.len() == 0 || second.len() == 0 {
            shown
        } else {
            with_dupes(shown, notes, second, e, trad_first)
        }
    }
}

/// The notes of a deck with their pronunciations in lower case, to look up
/// the notes that have a given pronunciation.
pub struct PinyinDupes<'a> {
    notes: &'a Vec<ChineseNote>,
    pinyins: Vec<Vec<char>>,
    tw_pinyins: Vec<Vec<char>>,
}

impl<'a> PinyinDupes<'a> {
    /// The notes that are looked up.
    pub closed spec fn notes(&self) -> Seq<NoteView> {
        views(self.notes@)
    }

    /// Each note stands with its two pronunciations in lower case.
    #[verifier::type_invariant]
    spec fn wf(&self) -> bool {
        &&& self.pinyins.len() == self.notes.len()
        &&& self.tw_pinyins.len() == self.notes.len()
        &&& forall|i: int|
            0 <= i < self.notes.len() ==> (#[trigger] self.pinyins[i])@ == lowercase(
                self.notes[i].ce.pinyin@,
            )
        &&& forall|i: int|
            0 <= i < self.notes.len() ==> (#[trigger] self.tw_pinyins[i])@ == lowercase(
                self.notes[i].ce.tw_pinyin@,
            )
    }

    /// The positions of the notes with the pronunciation `key`, which is
    /// given in lower case: each note once for its pronunciation and once
    /// more for its Taiwan pronunciation, in the order of the notes.
    pub fn get(&self, key: &[char]) -> (dupes: Vec<usize>)
        ensures
            dupes@.len() == pinyin_dupes(self.notes(), key@).len(),
            forall|k: int|
                0 <= k < dupes@.len() ==> (#[trigger] dupes@[k]) as int == pinyin_dupes(
                    self.notes(),
                    key@,
                )[k] && dupes@[k] < self.notes().len(),
    {
        proof {
            use_type_invariant(self);
        }
        let ghost ns = views(self.notes@);
        let mut dupes: Vec<usize> = Vec::new();
        let mut i: usize = 0;
        while i < self.notes.len()
            invariant
                i <= self.notes.len(),
                ns == views(self.notes@),
                self.wf(),
                dupes@.len() == pinyin_dupes(ns.take(i as int), key@).len(),
                forall|k: int|
                    0 <= k < dupes@.len() ==> (#[trigger] dupes@[k]) as int == pinyin_dupes(
                        ns.take(i as int),
                        key@,
                    )[k] && dupes@[k] < self.notes.len(),
            decreases self.notes.len() - i,
        {
            assert(ns.take(i + 1).drop_last() == ns.take(i as int));
            assert(ns.take(i + 1).last() == self.notes@[i as int]@);
            assert(self.pinyins[i as int]@ == lowercase(self.notes[i as int].ce.pinyin@));
            assert(self.tw_pinyins[i as int]@ == lowercase(self.notes[i as int].ce.tw_pinyin@));
            if chars_eq(self.pinyins[i].as_slice(), key) {
                dupes.push(i);
            }
            if self.tw_pinyins[i].len() > 0 && chars_eq(self.tw_pinyins[i].as_slice(), key) {
                dupes.push(i);
            }
            i += 1;
        }
        assert(ns.take(self.notes.len() as int) == ns);
        dupes
    }
}

/// Files the notes by pronunciation, whatever the case of its letters: both
/// the pronunciation and, where there is one, the Taiwan pronunciation of a
/// note count.
pub fn get_pinyin_dupes<'a>(notes: &'a Vec<ChineseNote>) -> (dupes: PinyinDupes<'a>)
    ensures
        dupes.notes() == views(notes@),
{
    let mut pinyins: Vec<Vec<char>> = Vec::new();
    let mut tw_pinyins: Vec<Vec<char>> = Vec::new();
    let mut i: usize = 0;
    while i < notes.len()
        invariant
            i <= notes.len(),
            pinyins.len() == i,
            tw_pinyins.len() == i,
            forall|k: int|
                0 <= k < i ==> (#[trigger] pinyins[k])@ == lowercase(notes[k].ce.pinyin@),
            forall|k: int|
                0 <= k < i ==> (#[trigger] tw_pinyins[k])@ == lowercase(notes[k].ce.tw_pinyin@),
        decreases notes.len() - i,
    {
        let ce = &notes[i].ce;
        pinyins.push(lowercase_chars(chars_of(ce.pinyin.as_str()).as_slice()));
        tw_pinyins.push(lowercase_chars(chars_of(ce.tw_pinyin.as_str()).as_slice()));
        i += 1;
    }
    PinyinDupes { notes, pinyins, tw_pinyins }
}

/// `shown` with the words at the given positions behind it.
fn push_dupes(
    shown: &mut Vec<char>,
    notes: &Vec<ChineseNote>,
    positions: &Vec<usize>,
    entry: &Entry,
    trad_first: bool,
    Ghost(spec_positions): Ghost<Seq<int>>,
)
    requires
        positions@.len() == spec_positions.len(),
        forall|k: int|
            0 <= k < positions@.len() ==> (#[trigger] positions@[k]) as int == spec_positions[k]
                && positions@[k] < notes.len(),
    ensures
        final(shown)@ == with_dupes(
            old(shown)@,
            views(notes@),
            spec_positions,
            entry@,
            trad_first,
        ),
{
    let ghost ns = views(notes@);
    let mut j: usize = 0;
    while j < positions.len()
        invariant
            j <= positions.len(),
            ns == views(notes@),
            positions@.len() == spec_positions.len(),
            forall|k: int|
                0 <= k < positions@.len() ==> (#[trigger] positions@[k]) as int
                    == spec_positions[k] && positions@[k] < notes.len(),
            shown@ == with_dupes(
                old(shown)@,
                ns,
                spec_positions.take(j as int),
                entry@,
                trad_first,
            ),
        decreases positions.len() - j,
    {
        assert(spec_positions.take(j + 1).drop_last() == spec_positions.take(j as int));
        let dupe = &notes[positions[j]].ce;
        if !dupe.same_as(entry) {
            let ghost head = shown@;
            if shown.len() > 0 {
                shown.push('\u{2002}');
            }
            let ghost lead = shown@;
            push_all(shown, chars_of("<span class=\"nobr\">").as_slice());
            let both = forms(dupe.trad.as_str(), dupe.simp.as_str(), trad_first);
            push_all(shown, both.as_slice());
            push_all(shown, chars_of("</span>").as_slice());
            assert(shown@ == lead + dupe_span(dupe@, trad_first));
            proof {
                if head.len() == 0 {
                    assert(lead + dupe_span(dupe@, trad_first) == dupe_span(dupe@, trad_first));
                }
            }
        }
        j += 1;
    }
    assert(spec_positions.take(positions.len() as int) == spec_positions);
}

/// Tells, for an entry, the words to tell it from: see `call`.
pub struct PinyinDupeString<'a> {
    dupes: PinyinDupes<'a>,
    trad_first: bool,
}

impl<'a> PinyinDupeString<'a> {
    /// The notes among which words are looked up.
    pub closed spec fn notes(&self) -> Seq<NoteView> {
        self.dupes.notes()
    }

    /// Whether the traditional form of a word is shown before the
    /// simplified one.
    pub closed spec fn trad_first(&self) -> bool {
        self.trad_first
    }

    /// Whether the traditional form of a word is shown before the
    /// simplified one.
    pub fn shows_trad_first(&self) -> (r: bool)
        ensures
            r == self.trad_first(),
    {
        self.trad_first
    }

    /// The words to tell an entry from: the other words among the notes
    /// with its pronunciation, then those with its Taiwan pronunciation, each
    /// in a span, with en spaces between them. The case of letters is
    /// ignored.
    pub fn call(&self, entry: &Entry) -> (r: String)
        ensures
            r@ == dupe_string(self.notes(), entry@, self.trad_first()),
    {
        let mut shown: Vec<char> = Vec::new();
        let key = lowercase_chars(chars_of(entry.pinyin.as_str()).as_slice());
        let first = self.dupes.get(key.as_slice());
        if first.len() == 0 {
            return string_of(shown.as_slice());
        }
        push_dupes(
            &mut shown,
            self.dupes.notes,
            &first,
            entry,
            self.trad_first,
            Ghost(pinyin_dupes(self.notes(), lowercase(entry.pinyin@))),
        );
        if !entry.tw_pinyin.as_str().is_empty() {
            let tw_key = lowercase_chars(chars_of(entry.tw_pinyin.as_str()).as_slice());
            let second = self.dupes.get(tw_key.as_slice());
            if second.len() > 0 {
                push_dupes(
                    &mut shown,
                    self.dupes.notes,
                    &second,
                    entry,
                    self.trad_first,
                    Ghost(pinyin_dupes(self.notes(), lowercase(entry.tw_pinyin@))),
                );
            }
        }
        string_of(shown.as_slice())
    }
}

/// Prepares the text that tells, for an entry, the other words among the
/// notes with the same pronunciation.
pub fn get_pinyin_dupe_string_fn<'a>(notes: &'a Vec<ChineseNote>, trad_first: bool) -> (r:
    PinyinDupeString<'a>)
    ensures
        r.notes() == views(notes@),
        r.trad_first() == trad_first,
{
    PinyinDupeString { dupes: get_pinyin_dupes(notes), trad_first }
}

/// The text that names a note: a prefix, then the simplified form, the
/// traditional form and the pronunciation of its entry, with single spaces
/// between the four.
pub open spec fn guid_text(prefix: Seq<char>, e: EntryView) -> Seq<char> {
    prefix.push(' ') + e.simp + seq![' '] + e.trad + seq![' '] + e.pinyin
}

/// The tags of a note as one text: single spaces between the tags, and one
/// before and one behind them.
pub open spec fn tags_text(tags: Seq<Seq<char>>) -> Seq<char> {
    seq![' '] + join_with(tags, seq![' ']) + seq![' ']
}

/// The classifiers as shown, one by one.
pub open spec fn clfr_strs(clfrs: Seq<ClassifierView>, trad_first: bool) -> Seq<Seq<char>> {
    Seq::new(clfrs.len(), |i: int| clfr_str(clfrs[i], trad_first))
}

/// The traditional form as a field of a note: empty where it equals the
/// simplified form.
pub open spec fn trad_field(e: EntryView) -> Seq<char> {
    if e.simp != e.trad {
        e.trad
    } else {
        Seq::empty()
    }
}

/// The seven fields of a note, with the unit separator between neighbours:
/// the simplified form, the traditional form, the pronunciation, the
/// glosses, the classifiers, the Taiwan pronunciation, and the other words
/// with the same pronunciation.
pub open spec fn fields_text(notes: Seq<NoteView>, e: EntryView, trad_first: bool) -> Seq<char> {
    join_with(
        seq![
            e.simp,
            trad_field(e),
            display_pinyin(e.pinyin),
            defs_html(e.defs),
            join_with(clfr_strs(e.clfrs, trad_first), ", "@),
            display_pinyin(e.tw_pinyin),
            dupe_string(notes, e, trad_first),
        ],
        seq!['\u{1f}'],
    )
}

/// The cards of a note, by the number of their template, in the order in
/// which they are made. A note whose two forms differ has a card for the
/// second form too: that of the form shown second comes behind that of the
/// form shown first.
pub open spec fn card_templates(e: EntryView, trad_first: bool) -> Seq<i64> {
    if e.simp == e.trad {
        seq![0i64, 1i64, 3i64]
    } else if trad_first {
        seq![0i64, 2i64, 1i64, 3i64]
    } else {
        seq![0i64, 1i64, 2i64, 3i64]
    }
}

/// The text that names a note.
pub fn make_guid_text(prefix: &str, entry: &Entry) -> (r: String)
    ensures
        r@ == guid_text(prefix@, entry@),
{
    let mut out = chars_of(prefix);
    out.push(' ');
    push_all(&mut out, chars_of(entry.simp.as_str()).as_slice());
    out.push(' ');
    push_all(&mut out, chars_of(entry.trad.as_str()).as_slice());
    out.push(' ');
    push_all(&mut out, chars_of(entry.pinyin.as_str()).as_slice());
    string_of(out.as_slice())
}

/// `pieces` put together, with `sep` between neighbours.
pub fn join_strings(pieces: &Vec<String>, sep: &str) -> (out: Vec<char>)
    ensures
        out@ == join_with(views(pieces@), sep@),
{
    let mut out: Vec<char> = Vec::new();
    let mut i: usize = 0;
    let separator = chars_of(sep);
    while i < pieces.len()
        invariant
            i <= pieces.len(),
            separator@ == sep@,
            out@ == join_with(views(pieces@).take(i as int), sep@),
        decreases pieces.len() - i,
    {
        assert(views(pieces@).take(i + 1).drop_last() == views(pieces@).take(i as int));
        if i > 0 {
            push_all(&mut out, separator.as_slice());
        }
        push_all(&mut out, chars_of(pieces[i].as_str()).as_slice());
        i += 1;
    }
    assert(views(pieces@).take(pieces.len() as int) == views(pieces@));
    out
}

/// The tags of a note as one text.
pub fn make_tags_text(tags: &Vec<String>) -> (r: String)
    ensures
        r@ == tags_text(views(tags@)),
{
    let mut out: Vec<char> = Vec::new();
    out.push(' ');
    push_all(&mut out, join_strings(tags, " ").as_slice());
    out.push(' ');
    proof {
        reveal_strlit(" ");
        assert(" "@ == seq![' ']);
    }
    string_of(out.as_slice())
}

/// The seven fields of a note, with the unit separator between neighbours.
/// The words with the same pronunciation come from `pinyin_not_hint`, which
/// also says which form of a word is shown first.
pub fn make_fields_text(entry: &Entry, pinyin_not_hint: &PinyinDupeString) -> (r: String)
    ensures
        r@ == fields_text(pinyin_not_hint.notes(), entry@, pinyin_not_hint.trad_first()),
{
    let trad_first = pinyin_not_hint.shows_trad_first();
    let mut shown: Vec<String> = Vec::new();
    let mut i: usize = 0;
    assert(views(shown@) == clfr_strs(views(entry.clfrs@), trad_first).take(0));
    while i < entry.clfrs.len()
        invariant
            i <= entry.clfrs.len(),
            views(shown@) == clfr_strs(views(entry.clfrs@), trad_first).take(i as int),
        decreases entry.clfrs.len() - i,
    {
        let ghost before = views(shown@);
        let one = make_clfr_str(&entry.clfrs[i], trad_first);
        shown.push(one);
        assert(views(shown@) == before.push(one@));
        i += 1;
    }
    assert(clfr_strs(views(entry.clfrs@), trad_first).take(entry.clfrs.len() as int) == clfr_strs(
        views(entry.clfrs@),
        trad_first,
    ));
    let mut fields: Vec<String> = Vec::new();
    fields.push(entry.simp.clone());
    fields.push(
        if !str_eq(entry.simp.as_str(), entry.trad.as_str()) {
            entry.trad.clone()
        } else {
            String::new()
        },
    );
    fields.push(
        string_of(prettify_pinyin_chars(chars_of(entry.pinyin.as_str()).as_slice()).as_slice()),
    );
    fields.push(make_defs_html(&entry.defs));
    fields.push(string_of(join_strings(&shown, ", ").as_slice()));
    fields.push(
        string_of(prettify_pinyin_chars(chars_of(entry.tw_pinyin.as_str()).as_slice()).as_slice()),
    );
    fields.push(pinyin_not_hint.call(entry));
    proof {
        reveal_strlit("\u{1f}");
        assert("\u{1f}"@ == seq!['\u{1f}']);
        assert(views(fields@) == seq![
            entry@.simp,
            trad_field(entry@),
            display_pinyin(entry@.pinyin),
            defs_html(entry@.defs),
            join_with(clfr_strs(entry@.clfrs, trad_first), ", "@),
            display_pinyin(entry@.tw_pinyin),
            dupe_string(pinyin_not_hint.notes(), entry@, trad_first),
        ]);
    }
    string_of(join_strings(&fields, "\u{1f}").as_slice())
}

/// The cards of a note, by the number of their template, in the order in
/// which they are made.
pub fn card_ordinals(entry: &Entry, trad_first: bool) -> (r: Vec<i64>)
    ensures
        r@ == card_templates(entry@, trad_first),
{
    let mut r: Vec<i64> = Vec::new();
    r.push(0);
    if str_eq(entry.simp.as_str(), entry.trad.as_str()) {
        r.push(1);
    } else if trad_first {
        r.push(2);
        r.push(1);
    } else {
        r.push(1);
        r.push(2);
    }
    r.push(3);
    r
}

} // verus!
