//! Character sequences: the model that every string of the library is
//! stated over, and the conversions between strings and character vectors.

use vstd::prelude::*;

verus! {

/// The views of the items of a sequence, item by item.
pub open spec fn views<T: View>(items: Seq<T>) -> Seq<T::V> {
    Seq::new(items.len(), |i: int| items[i]@)
}

/// Whether `pat` stands in `s` at position `i`.
pub open spec fn occurs_at(s: Seq<char>, pat: Seq<char>, i: int) -> bool {
    0 <= i && i + pat.len() <= s.len() && s.subrange(i, i + pat.len()) == pat
}

/// Whether `s` begins with `pat`.
pub open spec fn starts_with(s: Seq<char>, pat: Seq<char>) -> bool {
    occurs_at(s, pat, 0)
}

/// The first position at or after `from` where `pat` stands in `s`.
pub open spec fn find(s: Seq<char>, pat: Seq<char>, from: int) -> Option<int>
    decreases s.len() + 1 - from,
{
    if from < 0 || from + pat.len() > s.len() {
        None
    } else if occurs_at(s, pat, from) {
        Some(from)
    } else {
        find(s, pat, from + 1)
    }
}

/// The first position at or after `from` that holds `c`.
pub open spec fn index_of(s: Seq<char>, c: char, from: int) -> Option<int>
    decreases s.len() - from,
{
    if from < 0 || from >= s.len() {
        None
    } else if s[from] == c {
        Some(from)
    } else {
        index_of(s, c, from + 1)
    }
}

/// The last position that holds `c`.
pub open spec fn last_index_of(s: Seq<char>, c: char) -> Option<int>
    decreases s.len(),
{
    if s.len() == 0 {
        None
    } else if s.last() == c {
        Some(s.len() - 1)
    } else {
        last_index_of(s.drop_last(), c)
    }
}

/// The pieces of `s` between the occurrences of `sep`. There is always at
/// least one piece, and a piece may be empty.
pub open spec fn split(s: Seq<char>, sep: char) -> Seq<Seq<char>>
    decreases s.len(),
{
    match index_of(s, sep, 0) {
        Some(i) if 0 <= i < s.len() => seq![s.subrange(0, i)] + split(
            s.subrange(i + 1, s.len() as int),
            sep,
        ),
        _ => seq![s],
    }
}

/// The pieces put together again, with `sep` between neighbours.
pub open spec fn join(pieces: Seq<Seq<char>>, sep: char) -> Seq<char>
    decreases pieces.len(),
{
    if pieces.len() == 0 {
        Seq::empty()
    } else if pieces.len() == 1 {
        pieces[0]
    } else {
        join(pieces.drop_last(), sep).push(sep) + pieces.last()
    }
}

/// The pieces put together again, with the text `sep` between neighbours.
pub open spec fn join_with(pieces: Seq<Seq<char>>, sep: Seq<char>) -> Seq<char>
    decreases pieces.len(),
{
    if pieces.len() == 0 {
        Seq::empty()
    } else if pieces.len() == 1 {
        pieces[0]
    } else {
        join_with(pieces.drop_last(), sep) + sep + pieces.last()
    }
}

/// What `find` returns is the least position at which the pattern stands.
pub proof fn lemma_find(s: Seq<char>, pat: Seq<char>, from: int)
    requires
        0 <= from,
    ensures
        match find(s, pat, from) {
            Some(i) => from <= i && occurs_at(s, pat, i) && forall|j: int|
                from <= j < i ==> !occurs_at(s, pat, j),
            None => forall|j: int| from <= j ==> !occurs_at(s, pat, j),
        },
    decreases s.len() + 1 - from,
{
    if from + pat.len() > s.len() {
    } else if occurs_at(s, pat, from) {
    } else {
        lemma_find(s, pat, from + 1);
    }
}

/// What `index_of` returns is the least position that holds the character.
pub proof fn lemma_index_of(s: Seq<char>, c: char, from: int)
    requires
        0 <= from,
    ensures
        match index_of(s, c, from) {
            Some(i) => from <= i < s.len() && s[i] == c && forall|j: int|
                from <= j < i ==> s[j] != c,
            None => forall|j: int| from <= j < s.len() ==> s[j] != c,
        },
    decreases s.len() - from,
{
    if from >= s.len() {
    } else if s[from] == c {
    } else {
        lemma_index_of(s, c, from + 1);
    }
}

/// What `last_index_of` returns is the greatest position that holds the
/// character.
pub proof fn lemma_last_index_of(s: Seq<char>, c: char)
    ensures
        match last_index_of(s, c) {
            Some(i) => 0 <= i < s.len() && s[i] == c && forall|j: int|
                i < j < s.len() ==> s[j] != c,
            None => forall|j: int| 0 <= j < s.len() ==> s[j] != c,
        },
    decreases s.len(),
{
    if s.len() == 0 {
    } else if s.last() == c {
    } else {
        lemma_last_index_of(s.drop_last(), c);
        let t = s.drop_last();
        match last_index_of(t, c) {
            Some(i) => {
                assert forall|j: int| i < j < s.len() implies s[j] != c by {
                    if j < t.len() {
                        assert(t[j] != c);
                    }
                }
            },
            None => {
                assert forall|j: int| 0 <= j < s.len() implies s[j] != c by {
                    if j < t.len() {
                        assert(t[j] != c);
                    }
                }
            },
        }
    }
}

/// Appends one character to a string.
///
/// Trusted: calls `String::push`, which adds `c` at the end and changes
/// nothing else.
#[verifier::external_body]
pub(crate) fn push_char(s: &mut String, c: char)
    ensures
        final(s)@ == old(s)@.push(c),
{
    s.push(c);
}

/// The characters of a string, in order.
pub fn chars_of(s: &str) -> (v: Vec<char>)
    ensures
        v@ == s@,
{
    let mut v: Vec<char> = Vec::new();
    for c in it: s.chars()
        invariant
            it.seq() == s@,
            v@ == s@.take(it.index()),
    {
        v.push(c);
    }
    v
}

/// The string made of the given characters.
pub fn string_of(chars: &[char]) -> (s: String)
    ensures
        s@ == chars@,
{
    let mut s = String::new();
    let mut i: usize = 0;
    while i < chars.len()
        invariant
            i <= chars.len(),
            s@ == chars@.take(i as int),
        decreases chars.len() - i,
    {
        push_char(&mut s, chars[i]);
        i += 1;
    }
    s
}

/// Appends the characters of `tail` to `out`.
pub fn push_all(out: &mut Vec<char>, tail: &[char])
    ensures
        final(out)@ == old(out)@ + tail@,
{
    let mut i: usize = 0;
    while i < tail.len()
        invariant
            i <= tail.len(),
            out@ == old(out)@ + tail@.take(i as int),
        decreases tail.len() - i,
    {
        out.push(tail[i]);
        i += 1;
    }
}

/// The characters of `s` from `from` up to, not including, `to`.
pub fn copy_range(s: &[char], from: usize, to: usize) -> (v: Vec<char>)
    requires
        from <= to <= s.len(),
    ensures
        v@ == s@.subrange(from as int, to as int),
{
    let mut v: Vec<char> = Vec::new();
    let mut i: usize = from;
    while i < to
        invariant
            from <= i <= to <= s.len(),
            v@ == s@.subrange(from as int, i as int),
        decreases to - i,
    {
        v.push(s[i]);
        i += 1;
    }
    v
}

/// Whether two character slices are equal.
pub fn chars_eq(a: &[char], b: &[char]) -> (r: bool)
    ensures
        r == (a@ == b@),
{
    if a.len() != b.len() {
        return false;
    }
    let mut i: usize = 0;
    while i < a.len()
        invariant
            i <= a.len(),
            a.len() == b.len(),
            a@.take(i as int) == b@.take(i as int),
        decreases a.len() - i,
    {
        if a[i] != b[i] {
            return false;
        }
        assert(a@.take(i + 1) == a@.take(i as int).push(a@[i as int]));
        assert(b@.take(i + 1) == b@.take(i as int).push(b@[i as int]));
        i += 1;
    }
    assert(a@.take(a.len() as int) == a@);
    assert(b@.take(b.len() as int) == b@);
    true
}

/// Whether two strings hold the same characters.
pub fn str_eq(a: &str, b: &str) -> (r: bool)
    ensures
        r == (a@ == b@),
{
    chars_eq(chars_of(a).as_slice(), chars_of(b).as_slice())
}

/// Whether `pat` stands in `s` at position `i`.
pub fn matches_at(s: &[char], pat: &[char], i: usize) -> (r: bool)
    ensures
        r == occurs_at(s@, pat@, i as int),
{
    if pat.len() > s.len() || i > s.len() - pat.len() {
        return false;
    }
    let mut k: usize = 0;
    while k < pat.len()
        invariant
            k <= pat.len(),
            i + pat.len() <= s.len(),
            s@.subrange(i as int, i + k) == pat@.take(k as int),
        decreases pat.len() - k,
    {
        if s[i + k] != pat[k] {
            assert(s@.subrange(i as int, i + pat.len())[k as int] != pat@[k as int]);
            return false;
        }
        assert(s@.subrange(i as int, i + k + 1) == s@.subrange(i as int, i + k).push(
            s@[i + k],
        ));
        assert(pat@.take(k + 1) == pat@.take(k as int).push(pat@[k as int]));
        k += 1;
    }
    assert(pat@.take(pat.len() as int) == pat@);
    true
}

/// Whether `s` begins with `pat`.
pub fn begins_with(s: &[char], pat: &[char]) -> (r: bool)
    ensures
        r == starts_with(s@, pat@),
{
    matches_at(s, pat, 0)
}

/// The first position at or after `from` where `pat` stands in `s`.
pub fn find_from(s: &[char], pat: &[char], from: usize) -> (r: Option<usize>)
    ensures
        match r {
            Some(i) => find(s@, pat@, from as int) == Some(i as int),
            None => find(s@, pat@, from as int) is None,
        },
{
    if pat.len() > s.len() {
        return None;
    }
    let last: usize = s.len() - pat.len();
    let mut i: usize = from;
    while i <= last
        invariant
            from <= i,
            last == s.len() - pat.len(),
            find(s@, pat@, from as int) == find(s@, pat@, i as int),
        decreases last + 1 - i,
    {
        if matches_at(s, pat, i) {
            return Some(i);
        }
        if i == last {
            assert(find(s@, pat@, i + 1) is None);
            return None;
        }
        i += 1;
    }
    None
}

/// The first position at or after `from` that holds `c`.
pub fn index_of_from(s: &[char], c: char, from: usize) -> (r: Option<usize>)
    ensures
        match r {
            Some(i) => index_of(s@, c, from as int) == Some(i as int),
            None => index_of(s@, c, from as int) is None,
        },
{
    let mut i: usize = from;
    while i < s.len()
        invariant
            from <= i,
            index_of(s@, c, from as int) == index_of(s@, c, i as int),
        decreases s.len() - i,
    {
        if s[i] == c {
            return Some(i);
        }
        i += 1;
    }
    None
}

/// The last position that holds `c`.
pub fn last_index(s: &[char], c: char) -> (r: Option<usize>)
    ensures
        match r {
            Some(i) => last_index_of(s@, c) == Some(i as int),
            None => last_index_of(s@, c) is None,
        },
{
    let mut n: usize = s.len();
    assert(s@.take(n as int) == s@);
    while n > 0
        invariant
            n <= s.len(),
            last_index_of(s@, c) == last_index_of(s@.take(n as int), c),
        decreases n,
    {
        if s[n - 1] == c {
            return Some(n - 1);
        }
        assert(s@.take(n as int).drop_last() == s@.take(n - 1));
        n -= 1;
    }
    None
}

/// The pieces of `s` between the occurrences of `sep`.
pub fn split_chars(s: &[char], sep: char) -> (pieces: Vec<Vec<char>>)
    ensures
        views(pieces@) == split(s@, sep),
        pieces.len() >= 1,
{
    let mut pieces: Vec<Vec<char>> = Vec::new();
    let mut start: usize = 0;
    assert(s@.subrange(0, s.len() as int) == s@);
    loop
        invariant
            start <= s.len(),
            split(s@, sep) == views(pieces@) + split(
                s@.subrange(start as int, s.len() as int),
                sep,
            ),
        decreases s.len() - start,
    {
        let ghost rest = s@.subrange(start as int, s.len() as int);
        let ghost before = views(pieces@);
        match index_of_from(s, sep, start) {
            Some(i) => {
                proof {
                    lemma_index_of(s@, sep, start as int);
                    lemma_index_of_shift(s@, sep, start as int, 0);
                    assert(rest.subrange(0, i - start) == s@.subrange(start as int, i as int));
                    assert(rest.subrange(i - start + 1, rest.len() as int) == s@.subrange(
                        i + 1,
                        s.len() as int,
                    ));
                }
                let piece = copy_range(s, start, i);
                pieces.push(piece);
                proof {
                    assert(views(pieces@) == before + seq![piece@]);
                    assert(before + (seq![piece@] + split(
                        s@.subrange(i + 1, s.len() as int),
                        sep,
                    )) == before + seq![piece@] + split(s@.subrange(i + 1, s.len() as int), sep));
                }
                start = i + 1;
            },
            None => {
                proof {
                    lemma_index_of_shift(s@, sep, start as int, 0);
                }
                let piece = copy_range(s, start, s.len());
                pieces.push(piece);
                proof {
                    assert(views(pieces@) == before + seq![piece@]);
                }
                return pieces;
            },
        }
    }
}

/// Searching a tail of `s` is searching `s` from where the tail begins.
pub proof fn lemma_index_of_shift(s: Seq<char>, c: char, start: int, from: int)
    requires
        0 <= start <= s.len(),
        0 <= from,
    ensures
        index_of(s.subrange(start, s.len() as int), c, from) == match index_of(
            s,
            c,
            start + from,
        ) {
            Some(i) => Some(i - start),
            None => None,
        },
    decreases s.len() - start - from,
{
    let tail = s.subrange(start, s.len() as int);
    if from >= tail.len() {
    } else if tail[from] == c {
    } else {
        lemma_index_of_shift(s, c, start, from + 1);
    }
}

/// The digit that stands for a number below ten.
pub open spec fn digit_char(d: nat) -> char {
    ('0' as u8 + d as u8) as char
}

/// The value of a decimal digit.
pub open spec fn digit_value(c: char) -> Option<nat> {
    if '0' <= c && c <= '9' {
        Some((c as u8 - '0' as u8) as nat)
    } else {
        None
    }
}

/// A number written in decimal digits.
pub open spec fn decimal(n: nat) -> Seq<char>
    decreases n,
{
    if n < 10 {
        seq![digit_char(n)]
    } else {
        decimal(n / 10).push(digit_char(n % 10))
    }
}

/// The number that a text of decimal digits spells, if it is such a text.
pub open spec fn digits_value(s: Seq<char>) -> Option<nat>
    decreases s.len(),
{
    if s.len() == 0 {
        None
    } else {
        match digit_value(s.last()) {
            None => None,
            Some(d) => if s.len() == 1 {
                Some(d)
            } else {
                match digits_value(s.drop_last()) {
                    Some(v) => Some(v * 10 + d),
                    None => None,
                }
            },
        }
    }
}

/// The number that a text spells: decimal digits, with or without a `+`
/// before them.
pub open spec fn number_value(s: Seq<char>) -> Option<nat> {
    if s.len() > 0 && s[0] == '+' {
        digits_value(s.subrange(1, s.len() as int))
    } else {
        digits_value(s)
    }
}

/// A number written in decimal digits.
pub fn decimal_chars(n: u32) -> (out: Vec<char>)
    ensures
        out@ == decimal(n as nat),
{
    let mut low_first: Vec<char> = Vec::new();
    let mut rest: u32 = n;
    while rest >= 10
        invariant
            decimal(n as nat) == decimal(rest as nat) + low_first@.reverse(),
        decreases rest,
    {
        let ghost before = low_first@;
        let d = ((rest % 10) as u8 + 48u8) as char;
        low_first.push(d);
        proof {
            assert(d == digit_char((rest % 10) as nat));
            assert(low_first@.reverse() == seq![d] + before.reverse());
            assert(decimal((rest / 10) as nat).push(d) + before.reverse() == decimal(
                (rest / 10) as nat,
            ) + (seq![d] + before.reverse()));
        }
        rest = rest / 10;
    }
    let mut out: Vec<char> = Vec::new();
    out.push((rest as u8 + 48u8) as char);
    let mut k: usize = low_first.len();
    while k > 0
        invariant
            k <= low_first.len(),
            rest < 10,
            out@ == seq![digit_char(rest as nat)] + low_first@.reverse().take(low_first.len() - k),
        decreases k,
    {
        let ghost r = low_first@.reverse();
        out.push(low_first[k - 1]);
        assert(r.take(low_first.len() - k + 1) == r.take(low_first.len() - k).push(
            low_first@[k - 1],
        ));
        k -= 1;
    }
    assert(low_first@.reverse().take(low_first.len() as int) == low_first@.reverse());
    out
}

/// The number that a text spells, if it spells one that fits in 32 bits.
pub fn parse_number(s: &[char]) -> (r: Option<u32>)
    ensures
        match r {
            Some(v) => number_value(s@) == Some(v as nat),
            None => match number_value(s@) {
                Some(v) => v > u32::MAX,
                None => true,
            },
        },
{
    let digits = if s.len() > 0 && s[0] == '+' {
        vstd::slice::slice_subrange(s, 1, s.len())
    } else {
        s
    };
    if digits.len() == 0 {
        return None;
    }
    let mut value: u32 = 0;
    let mut i: usize = 0;
    while i < digits.len()
        invariant
            i <= digits.len(),
            number_value(s@) == digits_value(digits@),
            i > 0 ==> digits_value(digits@.take(i as int)) == Some(value as nat),
            i == 0 ==> value == 0,
        decreases digits.len() - i,
    {
        let c = digits[i];
        let ghost prefix = digits@.take(i + 1);
        assert(prefix.drop_last() == digits@.take(i as int));
        if !('0' <= c && c <= '9') {
            proof {
                assert(digits_value(prefix) is None);
                lemma_digits_fail(digits@, i + 1);
            }
            return None;
        }
        let d = (c as u8 - 48u8) as u32;
        if value > (u32::MAX - d) / 10 {
            proof {
                assert(digits_value(prefix) matches Some(v) && v > u32::MAX);
                lemma_digits_grow(digits@, i + 1);
            }
            return None;
        }
        value = value * 10 + d;
        i += 1;
    }
    assert(digits@.take(digits.len() as int) == digits@);
    Some(value)
}

/// Where a prefix spells no number, the whole text spells none.
pub proof fn lemma_digits_fail(s: Seq<char>, n: int)
    requires
        0 < n <= s.len(),
        digits_value(s.take(n)) is None,
    ensures
        digits_value(s) is None,
    decreases s.len() - n,
{
    if n < s.len() {
        assert(s.take(n + 1).drop_last() == s.take(n));
        lemma_digits_fail(s, n + 1);
    } else {
        assert(s.take(n) == s);
    }
}

/// Where a prefix spells a number, the whole text spells none or one that
/// is not smaller.
pub proof fn lemma_digits_grow(s: Seq<char>, n: int)
    requires
        0 < n <= s.len(),
        digits_value(s.take(n)) is Some,
    ensures
        digits_value(s) matches Some(v) ==> v >= digits_value(s.take(n))->0,
    decreases s.len() - n,
{
    if n < s.len() {
        assert(s.take(n + 1).drop_last() == s.take(n));
        if digits_value(s.take(n + 1)) is Some {
            lemma_digits_grow(s, n + 1);
        } else {
            lemma_digits_fail(s, n + 1);
        }
    } else {
        assert(s.take(n) == s);
    }
}

/// Splitting two texts with a separator between them gives the pieces of
/// the first, then the pieces of the second.
pub proof fn lemma_split_concat(a: Seq<char>, b: Seq<char>, sep: char)
    ensures
        split(a.push(sep) + b, sep) == split(a, sep) + split(b, sep),
    decreases a.len(),
{
    let w = a.push(sep) + b;
    lemma_index_of(a, sep, 0);
    lemma_index_of(w, sep, 0);
    assert(w[a.len() as int] == sep);
    assert(forall|j: int| 0 <= j < a.len() ==> w[j] == a[j]);
    match index_of(a, sep, 0) {
        Some(i) => {
            assert(w[i] == sep);
            assert(index_of(w, sep, 0) == Some(i));
            let a_rest = a.subrange(i + 1, a.len() as int);
            assert(w.subrange(i + 1, w.len() as int) == a_rest.push(sep) + b);
            assert(w.subrange(0, i) == a.subrange(0, i));
            lemma_split_concat(a_rest, b, sep);
            assert(seq![a.subrange(0, i)] + (split(a_rest, sep) + split(b, sep)) == (seq![
                a.subrange(0, i),
            ] + split(a_rest, sep)) + split(b, sep));
        },
        None => {
            assert(index_of(w, sep, 0) == Some(a.len() as int));
            assert(w.subrange(a.len() as int + 1, w.len() as int) == b);
            assert(w.subrange(0, a.len() as int) == a);
        },
    }
}

/// A text without the separator is its own single piece.
pub proof fn lemma_split_whole(s: Seq<char>, sep: char)
    requires
        !s.contains(sep),
    ensures
        split(s, sep) == seq![s],
{
    lemma_index_of(s, sep, 0);
    if index_of(s, sep, 0) is Some {
        assert(s.contains(s[index_of(s, sep, 0)->0]));
    }
}

/// No piece of a split holds the separator.
pub proof fn lemma_split_pieces(s: Seq<char>, sep: char)
    ensures
        split(s, sep).len() >= 1,
        forall|k: int|
            0 <= k < split(s, sep).len() ==> !(#[trigger] split(s, sep)[k]).contains(sep),
    decreases s.len(),
{
    lemma_index_of(s, sep, 0);
    match index_of(s, sep, 0) {
        Some(i) => {
            let rest = s.subrange(i + 1, s.len() as int);
            lemma_split_pieces(rest, sep);
            let first = s.subrange(0, i);
            assert(!first.contains(sep)) by {
                if first.contains(sep) {
                    let j = choose|j: int| 0 <= j < first.len() && first[j] == sep;
                    assert(s[j] == sep);
                }
            }
            assert forall|k: int| 0 <= k < split(s, sep).len() implies !(#[trigger] split(
                s,
                sep,
            )[k]).contains(sep) by {
                if k > 0 {
                    assert(split(s, sep)[k] == split(rest, sep)[k - 1]);
                }
            }
        },
        None => {
            assert(!s.contains(sep)) by {
                if s.contains(sep) {
                    let j = choose|j: int| 0 <= j < s.len() && s[j] == sep;
                    assert(s[j] == sep);
                }
            }
        },
    }
}

/// Joining pieces that hold no separator and splitting the result gives the
/// pieces back.
pub proof fn lemma_split_join(pieces: Seq<Seq<char>>, sep: char)
    requires
        pieces.len() >= 1,
        forall|k: int| 0 <= k < pieces.len() ==> !(#[trigger] pieces[k]).contains(sep),
    ensures
        split(join(pieces, sep), sep) == pieces,
    decreases pieces.len(),
{
    if pieces.len() == 1 {
        lemma_split_whole(pieces[0], sep);
        assert(seq![pieces[0]] == pieces);
    } else {
        let front = pieces.drop_last();
        assert forall|k: int| 0 <= k < front.len() implies !(#[trigger] front[k]).contains(
            sep,
        ) by {
            assert(front[k] == pieces[k]);
        }
        lemma_split_join(front, sep);
        lemma_split_concat(join(front, sep), pieces.last(), sep);
        lemma_split_whole(pieces.last(), sep);
        assert(front + seq![pieces.last()] == pieces);
    }
}

} // verus!
