//! The dictionary index: the parsed entries in source order, with three
//! lookup tables over them, and the search that the tables serve.

use crate::cedict::{parse_segment, parse_segment_chars, Entry, EntryView};
use crate::text::{chars_of, index_of, split, split_chars, str_eq, views};
use std::collections::HashMap;
use vstd::prelude::*;

verus! {

broadcast use vstd::std_specs::hash::group_hash_axioms;

/// A query: each field that is present must be met by an entry. The case of
/// `pinyin` is ignored.
pub struct DictSearchParams<'a> {
    pub simp: Option<&'a str>,
    pub trad: Option<&'a str>,
    pub pinyin: Option<&'a str>,
}

/// What a query holds, as character sequences.
pub struct SearchView {
    pub simp: Option<Seq<char>>,
    pub trad: Option<Seq<char>>,
    pub pinyin: Option<Seq<char>>,
}

/// The characters of an optional string.
pub open spec fn option_view(s: Option<&str>) -> Option<Seq<char>> {
    match s {
        Some(s) => Some(s@),
        None => None,
    }
}

impl<'a> View for DictSearchParams<'a> {
    type V = SearchView;

    open spec fn view(&self) -> SearchView {
        SearchView {
            simp: option_view(self.simp),
            trad: option_view(self.trad),
            pinyin: option_view(self.pinyin),
        }
    }
}

/// The lower-case form of an ASCII capital; any other character unchanged.
pub open spec fn to_lower(c: char) -> char {
    if 'A' <= c && c <= 'Z' {
        ((c as u8) + 32) as char
    } else {
        c
    }
}

/// `s` with every ASCII capital in lower case.
pub open spec fn lowercase(s: Seq<char>) -> Seq<char> {
    Seq::new(s.len(), |i: int| to_lower(s[i]))
}

/// Whether an entry meets every field that the query holds.
pub open spec fn matches_params(e: EntryView, p: SearchView) -> bool {
    &&& p.trad matches Some(trad) ==> e.trad == trad
    &&& p.simp matches Some(simp) ==> e.simp == simp
    &&& p.pinyin matches Some(pinyin) ==> lowercase(e.pinyin) == lowercase(pinyin)
}

/// The entries among the first `n` that meet the query, in source order.
pub open spec fn matching_upto(entries: Seq<EntryView>, p: SearchView, n: int) -> Seq<EntryView>
    decreases n,
{
    if n <= 0 {
        Seq::empty()
    } else {
        let head = matching_upto(entries, p, n - 1);
        if matches_params(entries[n - 1], p) {
            head.push(entries[n - 1])
        } else {
            head
        }
    }
}

/// What a search returns: nothing for a query without any field, else all
/// entries that meet the query, in source order.
pub open spec fn search_result(entries: Seq<EntryView>, p: SearchView) -> Seq<EntryView> {
    if p.trad is None && p.simp is None && p.pinyin is None {
        Seq::empty()
    } else {
        matching_upto(entries, p, entries.len() as int)
    }
}

/// The entries that the given lines denote, in order; a line that denotes
/// none is passed over.
pub open spec fn entries_of_lines(lines: Seq<Seq<char>>) -> Seq<EntryView>
    decreases lines.len(),
{
    if lines.len() == 0 {
        Seq::empty()
    } else {
        let head = entries_of_lines(lines.drop_last());
        match parse_segment(lines.last()) {
            Some(e) => head.push(e),
            None => head,
        }
    }
}

/// The entries of a dictionary text, one line each.
pub open spec fn entries_of_text(text: Seq<char>) -> Seq<EntryView> {
    entries_of_lines(split(text, '\n'))
}

/// The field of an entry that a lookup table is keyed by.
#[derive(Clone, Copy, Debug)]
pub enum KeyField {
    Trad,
    Simp,
    /// The pronunciation, in lower case.
    Pinyin,
}

/// The key of an entry in the table of the given field.
pub open spec fn key_of(e: EntryView, field: KeyField) -> Seq<char> {
    match field {
        KeyField::Trad => e.trad,
        KeyField::Simp => e.simp,
        KeyField::Pinyin => lowercase(e.pinyin),
    }
}

/// The key that a query gives for the table of the given field.
pub open spec fn query_key(p: SearchView, field: KeyField) -> Option<Seq<char>> {
    match field {
        KeyField::Trad => p.trad,
        KeyField::Simp => p.simp,
        KeyField::Pinyin => match p.pinyin {
            Some(pinyin) => Some(lowercase(pinyin)),
            None => None,
        },
    }
}

/// One step of the hash of a key.
pub open spec fn mix(h: u64, c: char) -> u64 {
    (h ^ (c as u64)).wrapping_mul(0x100000001b3)
}

/// The number under which a key is filed in a lookup table.
pub open spec fn key_hash(key: Seq<char>) -> u64
    decreases key.len(),
{
    if key.len() == 0 {
        0xcbf29ce484222325
    } else {
        mix(key_hash(key.drop_last()), key.last())
    }
}

/// The number under which entry `i` is filed in the table of `field`.
pub open spec fn filed_under(entries: Seq<EntryView>, field: KeyField, i: int) -> u64 {
    key_hash(key_of(entries[i], field))
}

/// A bucket filed under `h` holds, in rising order, positions below `n`
/// whose entries are filed under `h`.
pub open spec fn bucket_ok(
    entries: Seq<EntryView>,
    field: KeyField,
    h: u64,
    bucket: Seq<usize>,
    n: int,
) -> bool {
    &&& forall|k: int|
        0 <= k < bucket.len() ==> (#[trigger] bucket[k]) < n && filed_under(
            entries,
            field,
            bucket[k] as int,
        ) == h
    &&& forall|j: int, k: int|
        0 <= j < k < bucket.len() ==> #[trigger] bucket[j] < #[trigger] bucket[k]
}

/// A lookup table covers the first `n` entries: every bucket is in order,
/// and each of those entries stands in the bucket it is filed under.
pub open spec fn index_ok(
    entries: Seq<EntryView>,
    field: KeyField,
    table: Map<u64, Vec<usize>>,
    n: int,
) -> bool {
    &&& forall|h: u64| #[trigger]
        table.contains_key(h) ==> bucket_ok(entries, field, h, table[h]@, n)
    &&& forall|i: int|
        0 <= i < n ==> table.contains_key(#[trigger] filed_under(entries, field, i))
            && table[filed_under(entries, field, i)]@.contains(i as usize)
}

/// The lower-case form of an ASCII capital; any other character unchanged.
pub fn lower(c: char) -> (r: char)
    ensures
        r == to_lower(c),
{
    if 'A' <= c && c <= 'Z' {
        ((c as u8) + 32) as char
    } else {
        c
    }
}

/// `s` with every ASCII capital in lower case.
pub fn lowercase_chars(s: &[char]) -> (v: Vec<char>)
    ensures
        v@ == lowercase(s@),
{
    let mut v: Vec<char> = Vec::new();
    let mut i: usize = 0;
    while i < s.len()
        invariant
            i <= s.len(),
            v@ == lowercase(s@).take(i as int),
        decreases s.len() - i,
    {
        v.push(lower(s[i]));
        i += 1;
    }
    v
}

/// Whether two strings are equal but for the case of their ASCII letters.
pub fn eq_ignore_case(a: &str, b: &str) -> (r: bool)
    ensures
        r == (lowercase(a@) == lowercase(b@)),
{
    let a_low = lowercase_chars(chars_of(a).as_slice());
    let b_low = lowercase_chars(chars_of(b).as_slice());
    crate::text::chars_eq(a_low.as_slice(), b_low.as_slice())
}

/// The number under which a key is filed.
pub fn hash_chars(key: &[char]) -> (h: u64)
    ensures
        h == key_hash(key@),
{
    let mut h: u64 = 0xcbf29ce484222325;
    let mut i: usize = 0;
    while i < key.len()
        invariant
            i <= key.len(),
            h == key_hash(key@.take(i as int)),
        decreases key.len() - i,
    {
        assert(key@.take(i + 1).drop_last() == key@.take(i as int));
        h = (h ^ (key[i] as u64)).wrapping_mul(0x100000001b3);
        i += 1;
    }
    assert(key@.take(key.len() as int) == key@);
    h
}

/// Whether an entry meets every field that the query holds.
pub fn entry_matches(entry: &Entry, params: &DictSearchParams) -> (r: bool)
    ensures
        r == matches_params(entry@, params@),
{
    match params.trad {
        Some(trad) => {
            if !str_eq(entry.trad.as_str(), trad) {
                return false;
            }
        },
        None => {},
    }
    match params.simp {
        Some(simp) => {
            if !str_eq(entry.simp.as_str(), simp) {
                return false;
            }
        },
        None => {},
    }
    match params.pinyin {
        Some(pinyin) => {
            if !eq_ignore_case(entry.pinyin.as_str(), pinyin) {
                return false;
            }
        },
        None => {},
    }
    true
}

/// The number under which an entry is filed in the table of `field`.
pub fn entry_key_hash(entry: &Entry, field: KeyField) -> (h: u64)
    ensures
        h == key_hash(key_of(entry@, field)),
{
    match field {
        KeyField::Trad => hash_chars(chars_of(entry.trad.as_str()).as_slice()),
        KeyField::Simp => hash_chars(chars_of(entry.simp.as_str()).as_slice()),
        KeyField::Pinyin => hash_chars(
            lowercase_chars(chars_of(entry.pinyin.as_str()).as_slice()).as_slice(),
        ),
    }
}

/// Builds the lookup table of one field: each entry's position is filed
/// under the hash of its key, and every bucket keeps source order.
pub fn build_index(entries: &Vec<Entry>, field: KeyField) -> (table: HashMap<u64, Vec<usize>>)
    ensures
        index_ok(views(entries@), field, table@, entries.len() as int),
{
    let mut table: HashMap<u64, Vec<usize>> = HashMap::new();
    let mut i: usize = 0;
    while i < entries.len()
        invariant
            i <= entries.len(),
            index_ok(views(entries@), field, table@, i as int),
        decreases entries.len() - i,
    {
        let ghost es = views(entries@);
        let ghost before = table@;
        let h = entry_key_hash(&entries[i], field);
        let mut bucket: Vec<usize> = match table.remove(&h) {
            Some(b) => b,
            None => Vec::new(),
        };
        let ghost old_bucket = bucket@;
        bucket.push(i);
        let ghost new_bucket = bucket@;
        table.insert(h, bucket);
        proof {
            assert(filed_under(es, field, i as int) == h);
            assert(before.contains_key(h) ==> bucket_ok(es, field, h, old_bucket, i as int));
            assert(bucket_ok(es, field, h, new_bucket, i + 1));
            assert forall|g: u64| #[trigger] table@.contains_key(g) implies bucket_ok(
                es,
                field,
                g,
                table@[g]@,
                i + 1,
            ) by {
                if g != h {
                    assert(before.contains_key(g));
                    assert(bucket_ok(es, field, g, before[g]@, i as int));
                }
            }
            assert forall|j: int| 0 <= j < i + 1 implies table@.contains_key(
                #[trigger] filed_under(es, field, j),
            ) && table@[filed_under(es, field, j)]@.contains(j as usize) by {
                let g = filed_under(es, field, j);
                if j == i {
                    assert(new_bucket[new_bucket.len() - 1] == i);
                } else if g == h {
                    assert(before.contains_key(g));
                    let k = choose|k: int| 0 <= k < old_bucket.len() && old_bucket[k] == j as usize;
                    assert(new_bucket[k] == j as usize);
                } else {
                    assert(before.contains_key(g));
                }
            }
        }
        i += 1;
    }
    table
}

/// The dictionary: its entries in source order and the three lookup tables.
pub struct Dict {
    entries: Vec<Entry>,
    trad_idx: HashMap<u64, Vec<usize>>,
    simp_idx: HashMap<u64, Vec<usize>>,
    pinyin_idx: HashMap<u64, Vec<usize>>,
}

impl View for Dict {
    type V = Seq<EntryView>;

    /// The entries, in source order.
    closed spec fn view(&self) -> Seq<EntryView> {
        views(self.entries@)
    }
}

/// Appends to `entries` the entries that the lines of `text` denote.
fn push_entries(entries: &mut Vec<Entry>, text: &str)
    ensures
        views(final(entries)@) == views(old(entries)@) + entries_of_text(text@),
{
    let chars = chars_of(text);
    let lines = split_chars(chars.as_slice(), '\n');
    let mut i: usize = 0;
    assert(views(entries@) == views(old(entries)@) + Seq::<EntryView>::empty());
    while i < lines.len()
        invariant
            i <= lines.len(),
            views(entries@) == views(old(entries)@) + entries_of_lines(
                views(lines@).take(i as int),
            ),
        decreases lines.len() - i,
    {
        let ghost before = views(entries@);
        assert(views(lines@).take(i + 1).drop_last() == views(lines@).take(i as int));
        match parse_segment_chars(lines[i].as_slice()) {
            Some(e) => {
                entries.push(e);
                assert(views(entries@) == before.push(e@));
                assert(views(entries@) == views(old(entries)@) + entries_of_lines(
                    views(lines@).take(i + 1),
                ));
            },
            None => {},
        }
        i += 1;
    }
    assert(views(lines@).take(lines.len() as int) == views(lines@));
}

/// An entry that meets the query is filed under the hash of the query's key.
pub proof fn lemma_match_is_filed(entries: Seq<EntryView>, field: KeyField, p: SearchView, i: int)
    requires
        query_key(p, field) is Some,
        matches_params(entries[i], p),
    ensures
        filed_under(entries, field, i) == key_hash(query_key(p, field)->0),
{
}

/// Where no entry from `lo` up to `hi` meets the query, the matches among
/// the first `hi` entries are those among the first `lo`.
pub proof fn lemma_no_match_between(entries: Seq<EntryView>, p: SearchView, lo: int, hi: int)
    requires
        0 <= lo <= hi,
        forall|x: int| lo <= x < hi ==> !matches_params(#[trigger] entries[x], p),
    ensures
        matching_upto(entries, p, hi) == matching_upto(entries, p, lo),
    decreases hi - lo,
{
    if lo < hi {
        lemma_no_match_between(entries, p, lo, hi - 1);
        assert(!matches_params(entries[hi - 1], p));
    }
}

/// An entry whose position lies strictly between two neighbours of the
/// bucket that the query's key is filed under does not meet the query.
pub proof fn lemma_gap(
    entries: Seq<EntryView>,
    field: KeyField,
    p: SearchView,
    table: Map<u64, Vec<usize>>,
    j: int,
    x: int,
)
    requires
        index_ok(entries, field, table, entries.len() as int),
        query_key(p, field) is Some,
        table.contains_key(key_hash(query_key(p, field)->0)),
        0 <= j <= table[key_hash(query_key(p, field)->0)]@.len(),
        0 <= x < entries.len() <= usize::MAX,
        j > 0 ==> table[key_hash(query_key(p, field)->0)]@[j - 1] < x,
        j < table[key_hash(query_key(p, field)->0)]@.len() ==> x < table[key_hash(
            query_key(p, field)->0,
        )]@[j],
    ensures
        !matches_params(entries[x], p),
{
    let h = key_hash(query_key(p, field)->0);
    let b = table[h]@;
    if matches_params(entries[x], p) {
        lemma_match_is_filed(entries, field, p, x);
        assert(filed_under(entries, field, x) == h);
        assert(bucket_ok(entries, field, h, b, entries.len() as int));
        let k = choose|k: int| 0 <= k < b.len() && b[k] == x as usize;
        if k < j {
            if k < j - 1 {
                assert(b[k] < b[j - 1]);
            }
        } else {
            if k > j {
                assert(b[j] < b[k]);
            }
        }
    }
}

/// Where the table of a field that the query holds has no bucket for the
/// query's key, no entry meets the query.
pub proof fn lemma_no_bucket(
    entries: Seq<EntryView>,
    field: KeyField,
    p: SearchView,
    table: Map<u64, Vec<usize>>,
)
    requires
        index_ok(entries, field, table, entries.len() as int),
        query_key(p, field) is Some,
        !table.contains_key(key_hash(query_key(p, field)->0)),
    ensures
        matching_upto(entries, p, entries.len() as int) == Seq::<EntryView>::empty(),
{
    assert forall|x: int| 0 <= x < entries.len() implies !matches_params(
        #[trigger] entries[x],
        p,
    ) by {
        if matches_params(entries[x], p) {
            lemma_match_is_filed(entries, field, p, x);
        }
    }
    lemma_no_match_between(entries, p, 0, entries.len() as int);
}

impl Dict {
    /// The lookup table of the given field.
    pub closed spec fn table(&self, field: KeyField) -> Map<u64, Vec<usize>> {
        match field {
            KeyField::Trad => self.trad_idx@,
            KeyField::Simp => self.simp_idx@,
            KeyField::Pinyin => self.pinyin_idx@,
        }
    }

    /// The three lookup tables cover all entries.
    #[verifier::type_invariant]
    spec fn wf(&self) -> bool {
        &&& index_ok(self@, KeyField::Trad, self.trad_idx@, self@.len() as int)
        &&& index_ok(self@, KeyField::Simp, self.simp_idx@, self@.len() as int)
        &&& index_ok(self@, KeyField::Pinyin, self.pinyin_idx@, self@.len() as int)
    }

    /// The bucket to search: that of the first field, in the order
    /// traditional, simplified, pronunciation, which the query holds and
    /// whose table has a bucket for the query's key.
    fn bucket_for(&self, params: &DictSearchParams) -> (r: Option<(&Vec<usize>, Ghost<KeyField>)>)
        ensures
            match r {
                Some((bucket, field)) => {
                    &&& query_key(params@, field@) is Some
                    &&& self.table(field@).contains_key(key_hash(query_key(params@, field@)->0))
                    &&& self.table(field@)[key_hash(query_key(params@, field@)->0)] == *bucket
                },
                None => search_result(self@, params@) == Seq::<EntryView>::empty(),
            },
    {
        proof {
            use_type_invariant(self);
        }
        match params.trad {
            Some(trad) => {
                let h = hash_chars(chars_of(trad).as_slice());
                match self.trad_idx.get(&h) {
                    Some(bucket) => {
                        return Some((bucket, Ghost(KeyField::Trad)));
                    },
                    None => {
                        proof {
                            lemma_no_bucket(self@, KeyField::Trad, params@, self.trad_idx@);
                        }
                    },
                }
            },
            None => {},
        }
        match params.simp {
            Some(simp) => {
                let h = hash_chars(chars_of(simp).as_slice());
                match self.simp_idx.get(&h) {
                    Some(bucket) => {
                        return Some((bucket, Ghost(KeyField::Simp)));
                    },
                    None => {
                        proof {
                            lemma_no_bucket(self@, KeyField::Simp, params@, self.simp_idx@);
                        }
                    },
                }
            },
            None => {},
        }
        match params.pinyin {
            Some(pinyin) => {
                let h = hash_chars(lowercase_chars(chars_of(pinyin).as_slice()).as_slice());
                match self.pinyin_idx.get(&h) {
                    Some(bucket) => {
                        return Some((bucket, Ghost(KeyField::Pinyin)));
                    },
                    None => {
                        proof {
                            lemma_no_bucket(self@, KeyField::Pinyin, params@, self.pinyin_idx@);
                        }
                    },
                }
            },
            None => {},
        }
        None
    }

    /// All entries that meet every field of the query, in source order; none
    /// for a query without any field.
    pub fn search(&self, params: DictSearchParams) -> (found: Vec<Entry>)
        ensures
            views(found@) == search_result(self@, params@),
    {
        proof {
            use_type_invariant(self);
        }
        let mut found: Vec<Entry> = Vec::new();
        assert(views(found@) == Seq::<EntryView>::empty());
        let (bucket, field) = match self.bucket_for(&params) {
            Some(picked) => picked,
            None => {
                return found;
            },
        };
        let ghost table = self.table(field@);
        let ghost h = key_hash(query_key(params@, field@)->0);
        let ghost lo: int = 0;
        let mut j: usize = 0;
        assert(index_ok(self@, field@, table, self@.len() as int));
        assert(bucket_ok(self@, field@, h, bucket@, self@.len() as int));
        while j < bucket.len()
            invariant
                j <= bucket.len(),
                self@ == views(self.entries@),
                self@.len() == self.entries.len(),
                index_ok(self@, field@, table, self@.len() as int),
                query_key(params@, field@) is Some,
                h == key_hash(query_key(params@, field@)->0),
                table.contains_key(h),
                table[h] == *bucket,
                0 <= lo <= self@.len(),
                j == 0 ==> lo == 0,
                j > 0 ==> lo == bucket@[j - 1] + 1,
                views(found@) == matching_upto(self@, params@, lo),
            decreases bucket.len() - j,
        {
            let i = bucket[j];
            let ghost before = views(found@);
            proof {
                assert(bucket_ok(self@, field@, h, bucket@, self@.len() as int));
                if j > 0 {
                    assert(bucket@[j - 1] < bucket@[j as int]);
                }
                assert forall|x: int| lo <= x < i implies !matches_params(
                    #[trigger] self@[x],
                    params@,
                ) by {
                    lemma_gap(self@, field@, params@, table, j as int, x);
                }
                lemma_no_match_between(self@, params@, lo, i as int);
            }
            let candidate = &self.entries[i];
            if entry_matches(candidate, &params) {
                let copy = candidate.duplicate();
                found.push(copy);
                assert(views(found@) == before.push(copy@));
            }
            proof {
                lo = i + 1;
            }
            j += 1;
        }
        proof {
            assert forall|x: int| lo <= x < self@.len() implies !matches_params(
                #[trigger] self@[x],
                params@,
            ) by {
                lemma_gap(self@, field@, params@, table, j as int, x);
            }
            lemma_no_match_between(self@, params@, lo, self@.len() as int);
        }
        found
    }

    /// All entries with the given simplified form, in source order.
    pub fn search_simp(&self, simp: &str) -> (found: Vec<Entry>)
        ensures
            views(found@) == search_result(
                self@,
                SearchView { simp: Some(simp@), trad: None, pinyin: None },
            ),
    {
        self.search(DictSearchParams { simp: Some(simp), trad: None, pinyin: None })
    }

    /// The dictionary of the given text, one entry per line. Lines that
    /// denote no entry are passed over.
    pub fn new(dict_text: &str) -> (dict: Dict)
        ensures
            dict@ == entries_of_text(dict_text@),
    {
        let d = Dict::new_with_extra_entries("", dict_text);
        proof {
            reveal_strlit("");
            assert(split(""@, '\n') == seq![""@]);
            assert(seq![""@].drop_last() == Seq::<Seq<char>>::empty());
            assert(index_of(""@, ' ', 1) is None);
            assert(seq![""@].last() == ""@);
            assert(entries_of_lines(seq![""@].drop_last()) == Seq::<EntryView>::empty());
            assert(entries_of_lines(seq![""@]) == Seq::<EntryView>::empty());
            assert(d@ == entries_of_text(dict_text@));
        }
        d
    }

    /// The dictionary of two texts: the entries of `extra` come before those
    /// of `dict_text`.
    pub fn new_with_extra_entries(extra: &str, dict_text: &str) -> (dict: Dict)
        ensures
            dict@ == entries_of_text(extra@) + entries_of_text(dict_text@),
    {
        let mut entries: Vec<Entry> = Vec::new();
        assert(views(entries@) == Seq::<EntryView>::empty());
        push_entries(&mut entries, extra);
        push_entries(&mut entries, dict_text);
        let trad_idx = build_index(&entries, KeyField::Trad);
        let simp_idx = build_index(&entries, KeyField::Simp);
        let pinyin_idx = build_index(&entries, KeyField::Pinyin);
        Dict { entries, trad_idx, simp_idx, pinyin_idx }
    }
}

/// Every entry among the matches of the first `n` entries meets the query
/// and is one of those entries.
pub proof fn lemma_matches_meet_query(entries: Seq<EntryView>, p: SearchView, n: int)
    requires
        0 <= n <= entries.len(),
    ensures
        forall|k: int|
            0 <= k < matching_upto(entries, p, n).len() ==> {
                &&& matches_params(#[trigger] matching_upto(entries, p, n)[k], p)
                &&& exists|i: int| 0 <= i < n && entries[i] == matching_upto(entries, p, n)[k]
            },
    decreases n,
{
    if n > 0 {
        lemma_matches_meet_query(entries, p, n - 1);
        let head = matching_upto(entries, p, n - 1);
        let all = matching_upto(entries, p, n);
        assert forall|k: int| 0 <= k < all.len() implies {
            &&& matches_params(#[trigger] all[k], p)
            &&& exists|i: int| 0 <= i < n && entries[i] == all[k]
        } by {
            if k < head.len() {
                assert(all[k] == head[k]);
                let i = choose|i: int| 0 <= i < n - 1 && entries[i] == head[k];
                assert(0 <= i < n && entries[i] == all[k]);
            } else {
                assert(all[k] == entries[n - 1]);
            }
        }
    }
}

/// An entry among the first `n` that meets the query is among the matches.
pub proof fn lemma_match_is_found(entries: Seq<EntryView>, p: SearchView, n: int, i: int)
    requires
        0 <= i < n <= entries.len(),
        matches_params(entries[i], p),
    ensures
        matching_upto(entries, p, n).contains(entries[i]),
    decreases n,
{
    let all = matching_upto(entries, p, n);
    if i == n - 1 {
        assert(all[all.len() - 1] == entries[i]);
    } else {
        lemma_match_is_found(entries, p, n - 1, i);
        let head = matching_upto(entries, p, n - 1);
        let k = choose|k: int| 0 <= k < head.len() && head[k] == entries[i];
        assert(all[k] == entries[i]);
    }
}

/// A search for the simplified form of an entry of the dictionary returns
/// that entry.
pub proof fn law_search_finds_entry(entries: Seq<EntryView>, i: int)
    requires
        0 <= i < entries.len(),
    ensures
        search_result(
            entries,
            SearchView { simp: Some(entries[i].simp), trad: None, pinyin: None },
        ).contains(entries[i]),
{
    let p = SearchView { simp: Some(entries[i].simp), trad: None, pinyin: None };
    lemma_match_is_found(entries, p, entries.len() as int, i);
}

/// Whatever a search returns is an entry of the dictionary that meets every
/// field of the query. So a search by simplified form and pronunciation
/// returns no entry whose pronunciation differs from the query's by more
/// than the case of its letters.
pub proof fn law_search_returns_matches(entries: Seq<EntryView>, p: SearchView, e: EntryView)
    requires
        search_result(entries, p).contains(e),
    ensures
        matches_params(e, p),
        entries.contains(e),
        p.pinyin matches Some(pinyin) ==> lowercase(e.pinyin) == lowercase(pinyin),
{
    lemma_matches_meet_query(entries, p, entries.len() as int);
    let found = matching_upto(entries, p, entries.len() as int);
    let k = choose|k: int| 0 <= k < found.len() && found[k] == e;
    assert(matches_params(found[k], p));
}

/// The matches among the first `n` entries are those entries, filtered by
/// the query.
pub proof fn lemma_matching_is_filter(entries: Seq<EntryView>, p: SearchView, n: int)
    requires
        0 <= n <= entries.len(),
    ensures
        matching_upto(entries, p, n) == entries.take(n).filter(
            |e: EntryView| matches_params(e, p),
        ),
    decreases n,
{
    reveal(Seq::filter);
    if n > 0 {
        lemma_matching_is_filter(entries, p, n - 1);
        assert(entries.take(n).drop_last() == entries.take(n - 1));
    }
}

/// A search with at least one field returns the entries of the dictionary
/// filtered by the query: which lookup table served the search makes no
/// difference.
pub proof fn law_search_is_filter(entries: Seq<EntryView>, p: SearchView)
    requires
        p.trad is Some || p.simp is Some || p.pinyin is Some,
    ensures
        search_result(entries, p) == entries.filter(|e: EntryView| matches_params(e, p)),
{
    lemma_matching_is_filter(entries, p, entries.len() as int);
    assert(entries.take(entries.len() as int) == entries);
}

} // verus!
