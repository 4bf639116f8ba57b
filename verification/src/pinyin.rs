//! Pinyin in its two written forms: with a tone mark over a vowel, and with
//! a tone digit behind each syllable; and the markup that shows the second
//! form with its marks again.

use crate::text::{
    chars_of, find, find_from, join, lemma_split_join, lemma_split_pieces, push_all, split,
    split_chars, starts_with, string_of, views,
};
use vstd::prelude::*;

verus! {

/// Whether `c` is one of the six vowels without a mark.
pub open spec fn is_vowel(c: char) -> bool {
    c == 'a' || c == 'e' || c == 'i' || c == 'o' || c == 'u' || c == 'ü'
}

/// The four marked forms of a vowel, by rising tone number.
pub open spec fn mark_row(c: char) -> Option<Seq<char>> {
    if c == 'a' {
        Some(seq!['ā', 'á', 'ǎ', 'à'])
    } else if c == 'e' {
        Some(seq!['ē', 'é', 'ě', 'è'])
    } else if c == 'i' {
        Some(seq!['ī', 'í', 'ǐ', 'ì'])
    } else if c == 'o' {
        Some(seq!['ō', 'ó', 'ǒ', 'ò'])
    } else if c == 'u' {
        Some(seq!['ū', 'ú', 'ǔ', 'ù'])
    } else if c == 'ü' {
        Some(seq!['ǖ', 'ǘ', 'ǚ', 'ǜ'])
    } else {
        None
    }
}

/// The vowel `c` with the mark of `tone`. The fifth tone has no mark, and a
/// character that is no vowel has no marked form: both stay as they are.
pub open spec fn marked(c: char, tone: int) -> char {
    match mark_row(c) {
        Some(row) if 1 <= tone <= 4 => row[tone - 1],
        _ => c,
    }
}

/// A marked vowel taken apart.
pub struct Mark {
    pub vowel: char,
    pub tone: int,
}

/// The vowel and the tone of a marked vowel.
pub open spec fn unmark(c: char) -> Option<Mark> {
    if c == 'ā' {
        Some(Mark { vowel: 'a', tone: 1 })
    } else if c == 'á' {
        Some(Mark { vowel: 'a', tone: 2 })
    } else if c == 'ǎ' {
        Some(Mark { vowel: 'a', tone: 3 })
    } else if c == 'à' {
        Some(Mark { vowel: 'a', tone: 4 })
    } else if c == 'ē' {
        Some(Mark { vowel: 'e', tone: 1 })
    } else if c == 'é' {
        Some(Mark { vowel: 'e', tone: 2 })
    } else if c == 'ě' {
        Some(Mark { vowel: 'e', tone: 3 })
    } else if c == 'è' {
        Some(Mark { vowel: 'e', tone: 4 })
    } else if c == 'ī' {
        Some(Mark { vowel: 'i', tone: 1 })
    } else if c == 'í' {
        Some(Mark { vowel: 'i', tone: 2 })
    } else if c == 'ǐ' {
        Some(Mark { vowel: 'i', tone: 3 })
    } else if c == 'ì' {
        Some(Mark { vowel: 'i', tone: 4 })
    } else if c == 'ō' {
        Some(Mark { vowel: 'o', tone: 1 })
    } else if c == 'ó' {
        Some(Mark { vowel: 'o', tone: 2 })
    } else if c == 'ǒ' {
        Some(Mark { vowel: 'o', tone: 3 })
    } else if c == 'ò' {
        Some(Mark { vowel: 'o', tone: 4 })
    } else if c == 'ū' {
        Some(Mark { vowel: 'u', tone: 1 })
    } else if c == 'ú' {
        Some(Mark { vowel: 'u', tone: 2 })
    } else if c == 'ǔ' {
        Some(Mark { vowel: 'u', tone: 3 })
    } else if c == 'ù' {
        Some(Mark { vowel: 'u', tone: 4 })
    } else if c == 'ǖ' {
        Some(Mark { vowel: 'ü', tone: 1 })
    } else if c == 'ǘ' {
        Some(Mark { vowel: 'ü', tone: 2 })
    } else if c == 'ǚ' {
        Some(Mark { vowel: 'ü', tone: 3 })
    } else if c == 'ǜ' {
        Some(Mark { vowel: 'ü', tone: 4 })
    } else {
        None
    }
}

/// The digit that stands for a tone from 1 to 5.
pub open spec fn tone_digit(tone: int) -> char {
    if tone == 1 {
        '1'
    } else if tone == 2 {
        '2'
    } else if tone == 3 {
        '3'
    } else if tone == 4 {
        '4'
    } else {
        '5'
    }
}

/// The tone that a digit from `1` to `5` stands for.
pub open spec fn digit_tone(c: char) -> Option<int> {
    if c == '1' {
        Some(1)
    } else if c == '2' {
        Some(2)
    } else if c == '3' {
        Some(3)
    } else if c == '4' {
        Some(4)
    } else if c == '5' {
        Some(5)
    } else {
        None
    }
}

/// The first position at or after `from` that holds a marked vowel.
pub open spec fn first_marked(syl: Seq<char>, from: int) -> Option<int>
    decreases syl.len() - from,
{
    if from < 0 || from >= syl.len() {
        None
    } else if unmark(syl[from]) is Some {
        Some(from)
    } else {
        first_marked(syl, from + 1)
    }
}

/// The tone of a syllable: that of its first marked vowel, or 5.
pub open spec fn tone_of(syl: Seq<char>) -> int {
    match first_marked(syl, 0) {
        Some(i) => unmark(syl[i])->0.tone,
        None => 5,
    }
}

/// A vowel in ASCII: `ü` is written `u:`.
pub open spec fn ascii_vowel(c: char) -> Seq<char> {
    if c == 'ü' {
        seq!['u', ':']
    } else {
        seq![c]
    }
}

/// The ASCII form of the character at position `i` of a syllable: the first
/// marked vowel loses its mark, and every `ü` is written `u:`.
pub open spec fn ascii_at(syl: Seq<char>, i: int) -> Seq<char> {
    if first_marked(syl, 0) == Some(i) {
        ascii_vowel(unmark(syl[i])->0.vowel)
    } else {
        ascii_vowel(syl[i])
    }
}

/// The ASCII form of the first `n` characters of a syllable.
pub open spec fn ascii_body(syl: Seq<char>, n: int) -> Seq<char>
    decreases n,
{
    if n <= 0 {
        Seq::empty()
    } else {
        ascii_body(syl, n - 1) + ascii_at(syl, n - 1)
    }
}

/// A syllable in ASCII with its tone digit behind it.
pub open spec fn syllable_to_ascii(syl: Seq<char>) -> Seq<char> {
    ascii_body(syl, syl.len() as int).push(tone_digit(tone_of(syl)))
}

/// The syllables in ASCII, one by one.
pub open spec fn ascii_syllables(syls: Seq<Seq<char>>) -> Seq<Seq<char>> {
    Seq::new(syls.len(), |i: int| syllable_to_ascii(syls[i]))
}

/// Marked pinyin in ASCII with tone digits: the syllables, which single
/// spaces separate, are converted one by one. The empty text stays empty.
pub open spec fn ascii_pinyin(s: Seq<char>) -> Seq<char> {
    if s.len() == 0 {
        Seq::empty()
    } else {
        join(ascii_syllables(split(s, ' ')), ' ')
    }
}

/// `body` with every `u:` written as `ü`.
pub open spec fn merge_umlaut(body: Seq<char>) -> Seq<char>
    decreases body.len(),
{
    if body.len() == 0 {
        Seq::empty()
    } else if body.len() >= 2 && body[0] == 'u' && body[1] == ':' {
        seq!['ü'] + merge_umlaut(body.subrange(2, body.len() as int))
    } else {
        seq![body[0]] + merge_umlaut(body.subrange(1, body.len() as int))
    }
}

/// The first position at or after `from` that holds `a` or `e`.
pub open spec fn first_a_or_e(letters: Seq<char>, from: int) -> Option<int>
    decreases letters.len() - from,
{
    if from < 0 || from >= letters.len() {
        None
    } else if letters[from] == 'a' || letters[from] == 'e' {
        Some(from)
    } else {
        first_a_or_e(letters, from + 1)
    }
}

/// Whether position `i` holds a vowel that no vowel follows.
pub open spec fn is_open_vowel(letters: Seq<char>, i: int) -> bool {
    0 <= i < letters.len() && is_vowel(letters[i]) && (i + 1 == letters.len() || !is_vowel(
        letters[i + 1],
    ))
}

/// The first position at or after `from` that holds a vowel which no vowel
/// follows.
pub open spec fn first_open_vowel(letters: Seq<char>, from: int) -> Option<int>
    decreases letters.len() - from,
{
    if from < 0 || from >= letters.len() {
        None
    } else if is_open_vowel(letters, from) {
        Some(from)
    } else {
        first_open_vowel(letters, from + 1)
    }
}

/// The position of the vowel that carries the tone mark: the first `a` or
/// `e`; without one, the `o` of the first `ou`; without that, the first vowel
/// that no vowel follows.
pub open spec fn mark_position(letters: Seq<char>) -> Option<int> {
    match first_a_or_e(letters, 0) {
        Some(i) => Some(i),
        None => match find(letters, seq!['o', 'u'], 0) {
            Some(i) => Some(i),
            None => first_open_vowel(letters, 0),
        },
    }
}

/// The letters of a syllable, without its tone digit, with the mark of
/// `tone` on the vowel that carries it.
pub open spec fn marked_body(body: Seq<char>, tone: int) -> Seq<char> {
    let letters = merge_umlaut(body);
    match mark_position(letters) {
        Some(i) if 0 <= i < letters.len() => letters.update(i, marked(letters[i], tone)),
        _ => letters,
    }
}

/// The markup of one syllable. A syllable that ends in a digit from 1 to 5
/// is shown with its tone mark, inside a span whose class names the tone.
/// Any other syllable stays as it is.
pub open spec fn display_syllable(syl: Seq<char>) -> Seq<char> {
    if syl.len() > 0 && digit_tone(syl.last()) is Some {
        "<span class=\"tone"@.push(syl.last()) + "\">"@ + marked_body(
            syl.drop_last(),
            digit_tone(syl.last())->0,
        ) + "</span>"@
    } else {
        syl
    }
}

/// The markups of the syllables, one by one.
pub open spec fn display_syllables(syls: Seq<Seq<char>>) -> Seq<Seq<char>> {
    Seq::new(syls.len(), |i: int| display_syllable(syls[i]))
}

/// The markup of pinyin with tone digits: the syllables, which single spaces
/// separate, are shown one by one. The empty text stays empty.
pub open spec fn display_pinyin(s: Seq<char>) -> Seq<char> {
    if s.len() == 0 {
        Seq::empty()
    } else {
        join(display_syllables(split(s, ' ')), ' ')
    }
}

/// What `first_marked` returns is the least position of a marked vowel.
pub proof fn lemma_first_marked(syl: Seq<char>, from: int)
    requires
        0 <= from,
    ensures
        match first_marked(syl, from) {
            Some(i) => from <= i < syl.len() && unmark(syl[i]) is Some && forall|j: int|
                from <= j < i ==> unmark(#[trigger] syl[j]) is None,
            None => forall|j: int| from <= j < syl.len() ==> unmark(#[trigger] syl[j]) is None,
        },
    decreases syl.len() - from,
{
    if from >= syl.len() {
    } else if unmark(syl[from]) is Some {
    } else {
        lemma_first_marked(syl, from + 1);
    }
}

/// The vowel and the tone of a marked vowel, if `c` is one.
pub fn unmark_char(c: char) -> (r: Option<(char, u8)>)
    ensures
        match r {
            Some((v, t)) => unmark(c) == Some(Mark { vowel: v, tone: t as int }) && 1 <= t <= 4,
            None => unmark(c) is None,
        },
{
    match c {
        'ā' => Some(('a', 1)),
        'á' => Some(('a', 2)),
        'ǎ' => Some(('a', 3)),
        'à' => Some(('a', 4)),
        'ē' => Some(('e', 1)),
        'é' => Some(('e', 2)),
        'ě' => Some(('e', 3)),
        'è' => Some(('e', 4)),
        'ī' => Some(('i', 1)),
        'í' => Some(('i', 2)),
        'ǐ' => Some(('i', 3)),
        'ì' => Some(('i', 4)),
        'ō' => Some(('o', 1)),
        'ó' => Some(('o', 2)),
        'ǒ' => Some(('o', 3)),
        'ò' => Some(('o', 4)),
        'ū' => Some(('u', 1)),
        'ú' => Some(('u', 2)),
        'ǔ' => Some(('u', 3)),
        'ù' => Some(('u', 4)),
        'ǖ' => Some(('ü', 1)),
        'ǘ' => Some(('ü', 2)),
        'ǚ' => Some(('ü', 3)),
        'ǜ' => Some(('ü', 4)),
        _ => None,
    }
}

/// The vowel `c` with the mark of `tone`; `c` itself where it is no vowel or
/// the tone is the fifth.
pub fn toned_char(c: char, tone: usize) -> (r: char)
    requires
        1 <= tone <= 5,
    ensures
        r == marked(c, tone as int),
{
    if tone == 5 {
        return c;
    }
    let row: [char; 4] = match c {
        'a' => ['ā', 'á', 'ǎ', 'à'],
        'e' => ['ē', 'é', 'ě', 'è'],
        'i' => ['ī', 'í', 'ǐ', 'ì'],
        'o' => ['ō', 'ó', 'ǒ', 'ò'],
        'u' => ['ū', 'ú', 'ǔ', 'ù'],
        'ü' => ['ǖ', 'ǘ', 'ǚ', 'ǜ'],
        _ => {
            return c;
        },
    };
    row[tone - 1]
}

/// The digit that stands for a tone from 1 to 5.
fn digit_of(tone: u8) -> (r: char)
    ensures
        r == tone_digit(tone as int),
{
    match tone {
        1 => '1',
        2 => '2',
        3 => '3',
        4 => '4',
        _ => '5',
    }
}

/// A syllable in ASCII with its tone digit behind it.
pub fn syllable_to_ascii_chars(syl: &[char]) -> (r: Vec<char>)
    ensures
        r@ == syllable_to_ascii(syl@),
{
    let mut out: Vec<char> = Vec::new();
    let mut tone: u8 = 5;
    let mut i: usize = 0;
    proof {
        lemma_first_marked(syl@, 0);
    }
    while i < syl.len()
        invariant
            i <= syl.len(),
            out@ == ascii_body(syl@, i as int),
            tone == 5 ==> forall|j: int| 0 <= j < i ==> unmark(#[trigger] syl@[j]) is None,
            tone != 5 ==> first_marked(syl@, 0) is Some && first_marked(syl@, 0)->0 < i && tone
                == unmark(syl@[first_marked(syl@, 0)->0])->0.tone,
            match first_marked(syl@, 0) {
                Some(k) => 0 <= k < syl.len() && unmark(syl@[k]) is Some && forall|j: int|
                    0 <= j < k ==> unmark(#[trigger] syl@[j]) is None,
                None => forall|j: int| 0 <= j < syl.len() ==> unmark(#[trigger] syl@[j]) is None,
            },
        decreases syl.len() - i,
    {
        let c = syl[i];
        let mut plain = c;
        if tone == 5 {
            match unmark_char(c) {
                Some((vowel, t)) => {
                    assert(first_marked(syl@, 0) == Some(i as int));
                    tone = t;
                    plain = vowel;
                },
                None => {
                    assert(first_marked(syl@, 0) != Some(i as int));
                },
            }
        }
        if plain == 'ü' {
            out.push('u');
            out.push(':');
        } else {
            out.push(plain);
        }
        assert(out@ == ascii_body(syl@, i as int) + ascii_at(syl@, i as int));
        i += 1;
    }
    out.push(digit_of(tone));
    out
}

/// Marked pinyin in ASCII with tone digits, on characters.
pub fn pinyin_to_ascii_chars(chars: &[char]) -> (out: Vec<char>)
    ensures
        out@ == ascii_pinyin(chars@),
{
    let mut out: Vec<char> = Vec::new();
    if chars.len() == 0 {
        return out;
    }
    let syls = split_chars(chars, ' ');
    let mut i: usize = 0;
    let ghost pieces = ascii_syllables(split(chars@, ' '));
    while i < syls.len()
        invariant
            i <= syls.len(),
            views(syls@) == split(chars@, ' '),
            pieces == ascii_syllables(split(chars@, ' ')),
            out@ == join(pieces.take(i as int), ' '),
        decreases syls.len() - i,
    {
        if i > 0 {
            out.push(' ');
        }
        let piece = syllable_to_ascii_chars(syls[i].as_slice());
        push_all(&mut out, piece.as_slice());
        proof {
            assert(pieces.take(i + 1).drop_last() == pieces.take(i as int));
            assert(pieces.take(i + 1).last() == piece@);
        }
        i += 1;
    }
    assert(pieces.take(syls.len() as int) == pieces);
    out
}

/// Converts pinyin with tone marks to ASCII with tone digits: in each
/// syllable the first marked vowel loses its mark, every `ü` becomes `u:`,
/// and the digit of the tone, 5 without a mark, is put behind the syllable.
/// Single spaces separate the syllables. The empty text stays empty.
pub fn pinyin_to_ascii(pinyin: &str) -> (r: String)
    ensures
        r@ == ascii_pinyin(pinyin@),
{
    let chars = chars_of(pinyin);
    let out = pinyin_to_ascii_chars(chars.as_slice());
    string_of(out.as_slice())
}

/// Whether `c` is one of the six vowels without a mark.
pub fn vowel(c: char) -> (r: bool)
    ensures
        r == is_vowel(c),
{
    c == 'a' || c == 'e' || c == 'i' || c == 'o' || c == 'u' || c == 'ü'
}

/// The tone that a digit from `1` to `5` stands for.
pub fn tone_of_digit(c: char) -> (r: Option<usize>)
    ensures
        match r {
            Some(t) => digit_tone(c) == Some(t as int) && 1 <= t <= 5,
            None => digit_tone(c) is None,
        },
{
    match c {
        '1' => Some(1),
        '2' => Some(2),
        '3' => Some(3),
        '4' => Some(4),
        '5' => Some(5),
        _ => None,
    }
}

/// `body` with every `u:` written as `ü`.
pub fn merge_umlaut_chars(body: &[char]) -> (r: Vec<char>)
    ensures
        r@ == merge_umlaut(body@),
{
    let mut out: Vec<char> = Vec::new();
    let mut i: usize = 0;
    assert(body@.subrange(0, body.len() as int) == body@);
    while i < body.len()
        invariant
            i <= body.len(),
            merge_umlaut(body@) == out@ + merge_umlaut(body@.subrange(i as int, body.len() as int)),
        decreases body.len() - i,
    {
        let ghost rest = body@.subrange(i as int, body.len() as int);
        let ghost before = out@;
        if body[i] == 'u' && i + 1 < body.len() && body[i + 1] == ':' {
            out.push('ü');
            proof {
                assert(rest.subrange(2, rest.len() as int) == body@.subrange(
                    i + 2,
                    body.len() as int,
                ));
                assert(before + (seq!['ü'] + merge_umlaut(rest.subrange(2, rest.len() as int)))
                    == before.push('ü') + merge_umlaut(rest.subrange(2, rest.len() as int)));
            }
            i += 2;
        } else {
            out.push(body[i]);
            proof {
                assert(rest.subrange(1, rest.len() as int) == body@.subrange(
                    i + 1,
                    body.len() as int,
                ));
                assert(before + (seq![rest[0]] + merge_umlaut(rest.subrange(1, rest.len() as int)))
                    == before.push(rest[0]) + merge_umlaut(rest.subrange(1, rest.len() as int)));
            }
            i += 1;
        }
    }
    out
}

/// The first position that holds `a` or `e`.
fn find_a_or_e(letters: &[char]) -> (r: Option<usize>)
    ensures
        match r {
            Some(i) => first_a_or_e(letters@, 0) == Some(i as int) && i < letters.len(),
            None => first_a_or_e(letters@, 0) is None,
        },
{
    let mut i: usize = 0;
    while i < letters.len()
        invariant
            first_a_or_e(letters@, 0) == first_a_or_e(letters@, i as int),
        decreases letters.len() - i,
    {
        if letters[i] == 'a' || letters[i] == 'e' {
            return Some(i);
        }
        i += 1;
    }
    None
}

/// The first position that holds a vowel which no vowel follows.
fn find_open_vowel(letters: &[char]) -> (r: Option<usize>)
    ensures
        match r {
            Some(i) => first_open_vowel(letters@, 0) == Some(i as int) && i < letters.len(),
            None => first_open_vowel(letters@, 0) is None,
        },
{
    let mut i: usize = 0;
    while i < letters.len()
        invariant
            first_open_vowel(letters@, 0) == first_open_vowel(letters@, i as int),
        decreases letters.len() - i,
    {
        if vowel(letters[i]) && (i + 1 == letters.len() || !vowel(letters[i + 1])) {
            return Some(i);
        }
        i += 1;
    }
    None
}

/// The position of the vowel that carries the tone mark.
pub fn mark_position_of(letters: &[char]) -> (r: Option<usize>)
    ensures
        match r {
            Some(i) => mark_position(letters@) == Some(i as int) && i < letters.len(),
            None => mark_position(letters@) is None,
        },
{
    match find_a_or_e(letters) {
        Some(i) => {
            return Some(i);
        },
        None => {},
    }
    let mut ou: Vec<char> = Vec::new();
    ou.push('o');
    ou.push('u');
    assert(ou@ == seq!['o', 'u']);
    proof {
        crate::text::lemma_find(letters@, seq!['o', 'u'], 0);
    }
    match find_from(letters, ou.as_slice(), 0) {
        Some(i) => {
            return Some(i);
        },
        None => {},
    }
    find_open_vowel(letters)
}

/// The markup of one syllable.
pub fn display_syllable_chars(syl: &[char]) -> (r: Vec<char>)
    ensures
        r@ == display_syllable(syl@),
{
    let n = syl.len();
    let mut out: Vec<char> = Vec::new();
    if n == 0 {
        assert(out@ == syl@);
        return out;
    }
    let tone = match tone_of_digit(syl[n - 1]) {
        Some(t) => t,
        None => {
            push_all(&mut out, syl);
            assert(out@ == syl@);
            return out;
        },
    };
    let mut letters = merge_umlaut_chars(vstd::slice::slice_subrange(syl, 0, n - 1));
    match mark_position_of(letters.as_slice()) {
        Some(i) => {
            let with_mark = toned_char(letters[i], tone);
            letters.set(i, with_mark);
        },
        None => {},
    }
    push_all(&mut out, chars_of("<span class=\"tone").as_slice());
    out.push(syl[n - 1]);
    push_all(&mut out, chars_of("\">").as_slice());
    push_all(&mut out, letters.as_slice());
    push_all(&mut out, chars_of("</span>").as_slice());
    out
}

/// The markup of pinyin with tone digits, on characters.
pub fn prettify_pinyin_chars(chars: &[char]) -> (out: Vec<char>)
    ensures
        out@ == display_pinyin(chars@),
{
    let mut out: Vec<char> = Vec::new();
    if chars.len() == 0 {
        return out;
    }
    let syls = split_chars(chars, ' ');
    let mut i: usize = 0;
    let ghost pieces = display_syllables(split(chars@, ' '));
    while i < syls.len()
        invariant
            i <= syls.len(),
            views(syls@) == split(chars@, ' '),
            pieces == display_syllables(split(chars@, ' ')),
            out@ == join(pieces.take(i as int), ' '),
        decreases syls.len() - i,
    {
        if i > 0 {
            out.push(' ');
        }
        let piece = display_syllable_chars(syls[i].as_slice());
        push_all(&mut out, piece.as_slice());
        proof {
            assert(pieces.take(i + 1).drop_last() == pieces.take(i as int));
            assert(pieces.take(i + 1).last() == piece@);
        }
        i += 1;
    }
    assert(pieces.take(syls.len() as int) == pieces);
    out
}

/// Shows pinyin with tone digits: each syllable that ends in a digit from 1
/// to 5 gets its tone mark back, with `u:` shown as `ü`, inside a span whose
/// class names the tone. Single spaces separate the syllables. The empty
/// text stays empty.
pub fn prettify_pinyin(s: &str) -> (r: String)
    ensures
        r@ == display_pinyin(s@),
{
    let chars = chars_of(s);
    let out = prettify_pinyin_chars(chars.as_slice());
    string_of(out.as_slice())
}

/// The tone digit that the markup of a syllable names in the class of its
/// span.
pub open spec fn span_tone(markup: Seq<char>) -> Option<char> {
    let lead = "<span class=\"tone"@;
    if starts_with(markup, lead) && markup.len() > lead.len() {
        Some(markup[lead.len() as int])
    } else {
        None
    }
}

/// The ASCII form of a syllable without a space holds no space.
pub proof fn lemma_ascii_has_no_space(syl: Seq<char>, n: int)
    requires
        !syl.contains(' '),
        0 <= n <= syl.len(),
    ensures
        !ascii_body(syl, n).contains(' '),
    decreases n,
{
    if n > 0 {
        lemma_ascii_has_no_space(syl, n - 1);
        let head = ascii_body(syl, n - 1);
        let tail = ascii_at(syl, n - 1);
        assert(syl.contains(syl[n - 1]));
        assert(!tail.contains(' ')) by {
            let c = syl[n - 1];
            let v = if first_marked(syl, 0) == Some(n - 1) {
                unmark(c)->0.vowel
            } else {
                c
            };
            if first_marked(syl, 0) == Some(n - 1) {
                lemma_first_marked(syl, 0);
                assert(unmark(c) is Some);
                assert(is_vowel(v));
            }
            assert(v != ' ');
            assert(tail == ascii_vowel(v));
            if tail.contains(' ') {
                let j = choose|j: int| 0 <= j < tail.len() && tail[j] == ' ';
                assert(tail[j] == ' ');
            }
        }
        if (head + tail).contains(' ') {
            let j = choose|j: int| 0 <= j < (head + tail).len() && (head + tail)[j] == ' ';
            if j < head.len() {
                assert(head.contains(head[j]));
            } else {
                assert(tail.contains(tail[j - head.len()]));
            }
        }
    } else {
        if ascii_body(syl, n).contains(' ') {
            let j = choose|j: int|
                0 <= j < ascii_body(syl, n).len() && ascii_body(syl, n)[j] == ' ';
        }
    }
}

/// The span of a converted syllable names the digit that the conversion put
/// behind the syllable.
pub proof fn lemma_span_names_digit(syl: Seq<char>)
    ensures
        span_tone(display_syllable(syllable_to_ascii(syl))) == Some(
            tone_digit(tone_of(syl)),
        ),
        syllable_to_ascii(syl).last() == tone_digit(tone_of(syl)),
{
    reveal_strlit("<span class=\"tone");
    let a = syllable_to_ascii(syl);
    let lead = "<span class=\"tone"@;
    let shown = display_syllable(a);
    assert(a.last() == tone_digit(tone_of(syl)));
    assert(digit_tone(a.last()) is Some);
    let tail = "\">"@ + marked_body(a.drop_last(), digit_tone(a.last())->0) + "</span>"@;
    assert(shown == lead.push(a.last()) + tail);
    assert(shown.subrange(0, lead.len() as int) == lead);
    assert(shown[lead.len() as int] == a.last());
}

/// For pinyin with tone marks that is not empty: the syllables of its ASCII
/// form are the converted syllables, the markup of the ASCII form shows them
/// one by one, and the tone that each span names is the digit behind the
/// converted syllable.
pub proof fn law_round_trip_tones(x: Seq<char>)
    requires
        x.len() > 0,
    ensures
        split(ascii_pinyin(x), ' ') == ascii_syllables(split(x, ' ')),
        display_pinyin(ascii_pinyin(x)) == join(
            display_syllables(ascii_syllables(split(x, ' '))),
            ' ',
        ),
        forall|k: int|
            #![trigger split(x, ' ')[k]]
            0 <= k < split(x, ' ').len() ==> span_tone(
                display_syllable(split(ascii_pinyin(x), ' ')[k]),
            ) == Some(split(ascii_pinyin(x), ' ')[k].last()),
{
    let syls = split(x, ' ');
    let pieces = ascii_syllables(syls);
    lemma_split_pieces(x, ' ');
    assert forall|k: int| 0 <= k < pieces.len() implies !(#[trigger] pieces[k]).contains(' ') by {
        lemma_ascii_has_no_space(syls[k], syls[k].len() as int);
        let body = ascii_body(syls[k], syls[k].len() as int);
        let whole = body.push(tone_digit(tone_of(syls[k])));
        if whole.contains(' ') {
            let j = choose|j: int| 0 <= j < whole.len() && whole[j] == ' ';
            if j < body.len() {
                assert(body.contains(body[j]));
            }
        }
    }
    lemma_split_join(pieces, ' ');
    assert(ascii_pinyin(x).len() > 0) by {
        if ascii_pinyin(x).len() == 0 {
            assert(split(ascii_pinyin(x), ' ') == seq![ascii_pinyin(x)]);
            assert(pieces[0].len() > 0);
        }
    }
    assert forall|k: int| #![trigger syls[k]] 0 <= k < syls.len() implies span_tone(
        display_syllable(pieces[k]),
    ) == Some(pieces[k].last()) by {
        lemma_span_names_digit(syls[k]);
    }
}

} // verus!
