//! Choosing one entry for a headword: a table of preferred entries, a test
//! that tells ordinary senses from references and proper nouns, and the rule
//! that follows an erhua form to the word it is a variant of.

use crate::cedict::{Entry, EntryView};
use crate::index::{search_result, Dict, SearchView};
use crate::text::{
    begins_with, chars_of, index_of_from, lemma_index_of, push_char, starts_with, str_eq,
    string_of, views,
};
use vstd::prelude::*;
use vstd::slice::slice_subrange;
use vstd::string::StringExecFns;

verus! {

/// What the table prefers for one key. An empty field accepts any entry.
#[derive(Clone, PartialEq, Eq, Debug)]
pub struct PreferredEntry {
    pub pinyin: String,
    pub trad: String,
}

/// What a `PreferredEntry` holds, as character sequences.
pub struct PreferredView {
    pub pinyin: Seq<char>,
    pub trad: Seq<char>,
}

impl View for PreferredEntry {
    type V = PreferredView;

    open spec fn view(&self) -> PreferredView {
        PreferredView { pinyin: self.pinyin@, trad: self.trad@ }
    }
}

/// Why no entry could be chosen.
#[derive(Clone, Copy, PartialEq, Eq, Debug)]
pub enum ResolveError {
    /// The dictionary has no entry for the headword, or for a headword that a
    /// chain of erhua forms led to.
    NoEntry,
    /// An erhua form of at most one character: nothing is left when its last
    /// character is dropped.
    ChaseUnderflow,
}

/// Whether an entry has what the table prefers.
pub open spec fn override_matches(p: PreferredView, e: EntryView) -> bool {
    (p.pinyin.len() == 0 || p.pinyin == e.pinyin) && (p.trad.len() == 0 || p.trad == e.trad)
}

/// The key of a headword in the table: the headword, or the headword, a
/// space and the part of speech.
pub open spec fn override_key(simp: Seq<char>, part_of_speech: Option<Seq<char>>) -> Seq<char> {
    match part_of_speech {
        Some(pos) => simp.push(' ') + pos,
        None => simp,
    }
}

/// Whether the `[` at position `k` parts a gloss `see X[Y]` into an `X`
/// that is not empty and holds no space, and a `Y` that is not empty and
/// holds no `]`.
pub open spec fn see_splits_at(g: Seq<char>, k: int) -> bool {
    &&& 5 <= k < g.len() - 2
    &&& g[k] == '['
    &&& forall|j: int| 4 <= j < k ==> #[trigger] g[j] != ' '
    &&& forall|j: int| k < j < g.len() - 1 ==> #[trigger] g[j] != ']'
}

/// Whether a gloss has the exact shape `see X[Y]`, where `X` is not empty and
/// holds no space, and `Y` is not empty and holds no `]`.
pub open spec fn is_bare_see(g: Seq<char>) -> bool {
    &&& starts_with(g, "see "@)
    &&& g.last() == ']'
    &&& exists|k: int| see_splits_at(g, k)
}

/// Whether a gloss only refers to another entry.
pub open spec fn is_reference(g: Seq<char>) -> bool {
    starts_with(g, "variant of "@) || starts_with(g, "old variant of "@) || is_bare_see(g)
}

/// An entry is good if its first gloss is no reference and its pronunciation
/// does not begin with an ASCII capital, the sign of a proper noun.
pub open spec fn is_good_entry(e: EntryView) -> bool {
    &&& !(e.defs.len() > 0 && is_reference(e.defs[0]))
    &&& !(e.pinyin.len() > 0 && 'A' <= e.pinyin[0] && e.pinyin[0] <= 'Z')
}

/// Whether the first gloss of an entry says that it is an erhua form.
pub open spec fn is_erhua(e: EntryView) -> bool {
    e.defs.len() > 0 && starts_with(e.defs[0], "erhua variant of "@)
}

/// The first position at or after `from` of an entry that has what the table
/// prefers.
pub open spec fn first_override(entries: Seq<EntryView>, p: PreferredView, from: int) -> Option<
    int,
>
    decreases entries.len() - from,
{
    if from < 0 || from >= entries.len() {
        None
    } else if override_matches(p, entries[from]) {
        Some(from)
    } else {
        first_override(entries, p, from + 1)
    }
}

/// The position of the last good entry among the first `n`.
pub open spec fn last_good(entries: Seq<EntryView>, n: int) -> Option<int>
    decreases n,
{
    if n <= 0 || n > entries.len() {
        None
    } else if is_good_entry(entries[n - 1]) {
        Some(n - 1)
    } else {
        last_good(entries, n - 1)
    }
}

/// The position of the entry that is chosen among the senses of a headword:
/// the first that has what the table prefers for the headword; without one,
/// the last good entry; without one, the first entry.
pub open spec fn chosen_position(entries: Seq<EntryView>, preferred: Option<PreferredView>) -> int {
    let by_table = match preferred {
        Some(p) => first_override(entries, p, 0),
        None => None,
    };
    match by_table {
        Some(i) => i,
        None => match last_good(entries, entries.len() as int) {
            Some(i) => i,
            None => 0,
        },
    }
}

/// An erhua form with the glosses, the classifiers and the Taiwan
/// pronunciation of the word that it is a variant of.
pub open spec fn with_meaning_of(form: EntryView, word: EntryView) -> EntryView {
    EntryView {
        trad: form.trad,
        simp: form.simp,
        pinyin: form.pinyin,
        tw_pinyin: word.tw_pinyin,
        defs: word.defs,
        clfrs: word.clfrs,
    }
}

/// The query for a simplified form alone.
pub open spec fn simp_query(simp: Seq<char>) -> SearchView {
    SearchView { simp: Some(simp), trad: None, pinyin: None }
}

/// The entry for a headword. Among the entries with that simplified form one
/// is chosen, by the table, then by goodness. Where the chosen entry is an
/// erhua form, its meaning is that of the entry for the headword without its
/// last character, found in the same way.
pub open spec fn resolve(
    entries: Seq<EntryView>,
    table: Map<Seq<char>, PreferredView>,
    simp: Seq<char>,
    part_of_speech: Option<Seq<char>>,
) -> Result<EntryView, ResolveError>
    decreases simp.len(),
{
    let senses = search_result(entries, simp_query(simp));
    let key = override_key(simp, part_of_speech);
    let preferred = if table.contains_key(key) {
        Some(table[key])
    } else {
        None
    };
    if senses.len() == 0 {
        Err(ResolveError::NoEntry)
    } else {
        let form = senses[chosen_position(senses, preferred)];
        if !is_erhua(form) {
            Ok(form)
        } else if simp.len() <= 1 {
            Err(ResolveError::ChaseUnderflow)
        } else {
            match resolve(entries, table, simp.drop_last(), part_of_speech) {
                Ok(word) => Ok(with_meaning_of(form, word)),
                Err(e) => Err(e),
            }
        }
    }
}

/// The table that a list of keys and preferences stands for: a later item
/// replaces an earlier one with the same key.
pub open spec fn table_of(items: Seq<(String, PreferredEntry)>) -> Map<Seq<char>, PreferredView>
    decreases items.len(),
{
    if items.len() == 0 {
        Map::empty()
    } else {
        table_of(items.drop_last()).insert(items.last().0@, items.last().1@)
    }
}

/// The table of preferred entries, by headword or by headword and part of
/// speech.
pub struct PreferredEntryMap {
    items: Vec<(String, PreferredEntry)>,
}

impl View for PreferredEntryMap {
    type V = Map<Seq<char>, PreferredView>;

    closed spec fn view(&self) -> Map<Seq<char>, PreferredView> {
        table_of(self.items@)
    }
}

impl PreferredEntryMap {
    /// The empty table.
    pub fn new() -> (table: PreferredEntryMap)
        ensures
            table@ == Map::<Seq<char>, PreferredView>::empty(),
    {
        PreferredEntryMap { items: Vec::new() }
    }

    /// Sets what the table prefers for `key`.
    pub fn insert(&mut self, key: String, value: PreferredEntry)
        ensures
            final(self)@ == old(self)@.insert(key@, value@),
    {
        let ghost before = self.items@;
        self.items.push((key, value));
        assert(self.items@.drop_last() == before);
    }

    /// What the table prefers for `key`, if anything.
    pub fn get(&self, key: &str) -> (r: Option<&PreferredEntry>)
        ensures
            match r {
                Some(p) => self@.contains_key(key@) && self@[key@] == p@,
                None => !self@.contains_key(key@),
            },
    {
        let mut n: usize = self.items.len();
        assert(self.items@.take(n as int) == self.items@);
        while n > 0
            invariant
                n <= self.items.len(),
                self@.contains_key(key@) == table_of(self.items@.take(n as int)).contains_key(key@),
                self@.contains_key(key@) ==> self@[key@] == table_of(
                    self.items@.take(n as int),
                )[key@],
            decreases n,
        {
            assert(self.items@.take(n as int).drop_last() == self.items@.take(n - 1));
            if str_eq(self.items[n - 1].0.as_str(), key) {
                return Some(&self.items[n - 1].1);
            }
            n -= 1;
        }
        None
    }
}

/// The characters of an optional preference.
pub open spec fn preferred_view(p: Option<&PreferredEntry>) -> Option<PreferredView> {
    match p {
        Some(p) => Some(p@),
        None => None,
    }
}

/// The view of what a resolution returns.
pub open spec fn resolved_view(r: Result<Entry, ResolveError>) -> Result<EntryView, ResolveError> {
    match r {
        Ok(e) => Ok(e@),
        Err(e) => Err(e),
    }
}

/// Whether a gloss has the exact shape `see X[Y]`.
#[verifier::loop_isolation(false)]
pub fn bare_see(g: &[char]) -> (r: bool)
    ensures
        r == is_bare_see(g@),
{
    proof {
        reveal_strlit("see ");
    }
    if !begins_with(g, chars_of("see ").as_slice()) {
        return false;
    }
    let n = g.len();
    if g[n - 1] != ']' {
        return false;
    }
    if n < 8 {
        assert(forall|k: int| !see_splits_at(g@, k));
        return false;
    }
    let mut k: usize = 4;
    while k < n - 2
        invariant
            4 <= k <= n - 2,
            n == g.len(),
            forall|j: int| 4 <= j < k ==> #[trigger] g@[j] != ' ',
            forall|x: int| 0 <= x < k ==> !see_splits_at(g@, x),
        decreases n - k,
    {
        if g[k] == ' ' {
            assert forall|x: int| !see_splits_at(g@, x) by {
                if x > k {
                    assert(g@[k as int] == ' ');
                }
            }
            return false;
        }
        if k >= 5 && g[k] == '[' {
            match index_of_from(g, ']', k + 1) {
                Some(close) => {
                    proof {
                        lemma_index_of(g@, ']', k + 1);
                    }
                    if close == n - 1 {
                        assert(see_splits_at(g@, k as int));
                        return true;
                    }
                    assert(g@[close as int] == ']');
                },
                None => {
                    proof {
                        lemma_index_of(g@, ']', k + 1);
                        assert(g@[n - 1] == ']');
                    }
                },
            }
        }
        k += 1;
    }
    assert(forall|x: int| !see_splits_at(g@, x));
    false
}

/// Whether a gloss only refers to another entry.
pub fn reference(g: &[char]) -> (r: bool)
    ensures
        r == is_reference(g@),
{
    begins_with(g, chars_of("variant of ").as_slice()) || begins_with(
        g,
        chars_of("old variant of ").as_slice(),
    ) || bare_see(g)
}

/// Whether an entry is good: its first gloss is no reference, and its
/// pronunciation does not begin with an ASCII capital.
pub fn is_good(entry: &Entry) -> (r: bool)
    ensures
        r == is_good_entry(entry@),
{
    if entry.defs.len() > 0 {
        let first = chars_of(entry.defs[0].as_str());
        if reference(first.as_slice()) {
            return false;
        }
    }
    let pinyin = chars_of(entry.pinyin.as_str());
    if pinyin.len() > 0 {
        let firstchar = pinyin[0];
        if 'A' <= firstchar && firstchar <= 'Z' {
            return false;
        }
    }
    true
}

/// Whether the first gloss of an entry says that it is an erhua form.
pub fn erhua(entry: &Entry) -> (r: bool)
    ensures
        r == is_erhua(entry@),
{
    if entry.defs.len() == 0 {
        return false;
    }
    let first = chars_of(entry.defs[0].as_str());
    begins_with(first.as_slice(), chars_of("erhua variant of ").as_slice())
}

/// Whether an entry has what the table prefers.
pub fn meets_preference(p: &PreferredEntry, entry: &Entry) -> (r: bool)
    ensures
        r == override_matches(p@, entry@),
{
    (p.pinyin.as_str().is_empty() || str_eq(p.pinyin.as_str(), entry.pinyin.as_str())) && (
    p.trad.as_str().is_empty() || str_eq(p.trad.as_str(), entry.trad.as_str()))
}

/// The position of the entry that is chosen among the senses of a headword.
#[verifier::loop_isolation(false)]
pub fn choose_position(entries: &Vec<Entry>, preferred: Option<&PreferredEntry>) -> (pos: usize)
    requires
        entries.len() > 0,
    ensures
        pos == chosen_position(views(entries@), preferred_view(preferred)),
        pos < entries.len(),
{
    let ghost es = views(entries@);
    match preferred {
        Some(p) => {
            let mut i: usize = 0;
            while i < entries.len()
                invariant
                    i <= entries.len(),
                    es == views(entries@),
                    first_override(es, p@, 0) == first_override(es, p@, i as int),
                decreases entries.len() - i,
            {
                if meets_preference(p, &entries[i]) {
                    return i;
                }
                i += 1;
            }
        },
        None => {},
    }
    let mut best: usize = 0;
    let mut any: bool = false;
    let mut i: usize = 0;
    while i < entries.len()
        invariant
            i <= entries.len(),
            es == views(entries@),
            best < entries.len(),
            any ==> last_good(es, i as int) == Some(best as int),
            !any ==> last_good(es, i as int) is None && best == 0,
        decreases entries.len() - i,
    {
        if is_good(&entries[i]) {
            best = i;
            any = true;
        }
        i += 1;
    }
    best
}

/// The key of a headword in the table.
pub fn make_key(simp: &str, part_of_speech: Option<&str>) -> (key: String)
    ensures
        key@ == override_key(simp@, crate::index::option_view(part_of_speech)),
{
    let mut key = String::from_str(simp);
    match part_of_speech {
        Some(pos) => {
            push_char(&mut key, ' ');
            key.append(pos);
        },
        None => {},
    }
    key
}

/// Chooses the entry for a headword. Among the entries with the simplified
/// form `simp`, the first that has what the table prefers wins; without one,
/// the last good entry; without one, the first entry. Where the winner is an
/// erhua form, it gets the glosses, the classifiers and the Taiwan
/// pronunciation of the entry chosen in the same way for the headword
/// without its last character.
///
/// Fails with `NoEntry` where the dictionary has no entry for a headword
/// that is looked up, and with `ChaseUnderflow` where an erhua form has at
/// most one character.
pub fn best_entry(
    simp: &str,
    part_of_speech: Option<&str>,
    dict: &Dict,
    preferred: &PreferredEntryMap,
) -> (r: Result<Entry, ResolveError>)
    ensures
        resolved_view(r) == resolve(
            dict@,
            preferred@,
            simp@,
            crate::index::option_view(part_of_speech),
        ),
    decreases simp@.len(),
{
    let entries = dict.search_simp(simp);
    if entries.len() == 0 {
        return Err(ResolveError::NoEntry);
    }
    let key = make_key(simp, part_of_speech);
    let pos = choose_position(&entries, preferred.get(key.as_str()));
    let form = &entries[pos];
    if !erhua(form) {
        return Ok(form.duplicate());
    }
    let chars = chars_of(simp);
    if chars.len() <= 1 {
        return Err(ResolveError::ChaseUnderflow);
    }
    let shorter = string_of(slice_subrange(chars.as_slice(), 0, chars.len() - 1));
    assert(shorter@ == simp@.drop_last());
    match best_entry(shorter.as_str(), part_of_speech, dict, preferred) {
        Ok(word) => Ok(
            Entry {
                trad: form.trad.clone(),
                simp: form.simp.clone(),
                pinyin: form.pinyin.clone(),
                tw_pinyin: word.tw_pinyin,
                defs: word.defs,
                clfrs: word.clfrs,
            },
        ),
        Err(e) => Err(e),
    }
}

/// A dictionary together with the table of preferred entries.
pub struct PreferredEntryGetter<'d> {
    map: PreferredEntryMap,
    dict: &'d Dict,
}

impl<'d> PreferredEntryGetter<'d> {
    /// The dictionary that entries are chosen from.
    pub closed spec fn dict(&self) -> &Dict {
        self.dict
    }

    /// The table of preferred entries.
    pub closed spec fn table(&self) -> Map<Seq<char>, PreferredView> {
        self.map@
    }

    /// A getter over the given dictionary and table.
    pub fn new(dict: &'d Dict, map: PreferredEntryMap) -> (getter: PreferredEntryGetter<'d>)
        ensures
            getter.dict() == dict,
            getter.table() == map@,
    {
        PreferredEntryGetter { map, dict }
    }

    /// The dictionary that entries are chosen from.
    pub fn dictionary(&self) -> (dict: &'d Dict)
        ensures
            dict == self.dict(),
    {
        self.dict
    }

    /// The entry for a headword: see `best_entry`.
    pub fn get(&self, simp: &str, part_of_speech: Option<&str>) -> (r: Result<Entry, ResolveError>)
        ensures
            resolved_view(r) == resolve(
                self.dict()@,
                self.table(),
                simp@,
                crate::index::option_view(part_of_speech),
            ),
    {
        best_entry(simp, part_of_speech, self.dict, &self.map)
    }
}

/// A YAML value, as far as the table of preferred entries is made of it.
#[derive(PartialEq, Eq, Debug)]
pub enum YamlValue {
    String(String),
    /// The pairs of a mapping, in the order of the document.
    Mapping(Vec<(YamlValue, YamlValue)>),
    /// Any other value: a number, a truth value, a sequence or nothing.
    Other,
}

/// Why a YAML document is no table of preferred entries.
#[derive(Clone, Copy, PartialEq, Eq, Debug)]
pub enum OverrideError {
    /// The document, or what it prefers for a key, is no mapping.
    NotAMapping,
    /// A key or a preferred field is no string.
    NotAString,
}

/// The characters of a YAML string.
pub open spec fn yaml_string(y: YamlValue) -> Option<Seq<char>> {
    match y {
        YamlValue::String(s) => Some(s@),
        _ => None,
    }
}

/// The preference that the pairs of a mapping state: the value of `pinyin`
/// and the value of `trad`, each empty where the mapping has no such key; of
/// two pairs with the same key the later one counts. Every key and value
/// must be a string.
pub open spec fn preferred_of_pairs(pairs: Seq<(YamlValue, YamlValue)>) -> Result<
    PreferredView,
    OverrideError,
>
    decreases pairs.len(),
{
    if pairs.len() == 0 {
        Ok(PreferredView { pinyin: Seq::empty(), trad: Seq::empty() })
    } else {
        match preferred_of_pairs(pairs.drop_last()) {
            Err(error) => Err(error),
            Ok(p) => match (yaml_string(pairs.last().0), yaml_string(pairs.last().1)) {
                (Some(key), Some(value)) => if key == "pinyin"@ {
                    Ok(PreferredView { pinyin: value, trad: p.trad })
                } else if key == "trad"@ {
                    Ok(PreferredView { pinyin: p.pinyin, trad: value })
                } else {
                    Ok(p)
                },
                _ => Err(OverrideError::NotAString),
            },
        }
    }
}

/// The preference that a YAML value states.
pub open spec fn preferred_of_yaml(y: YamlValue) -> Result<PreferredView, OverrideError> {
    match y {
        YamlValue::Mapping(pairs) => preferred_of_pairs(pairs@),
        _ => Err(OverrideError::NotAMapping),
    }
}

/// The table that the pairs of a mapping state: each key, a string, with the
/// preference that its value states. The first pair that is out of shape
/// decides the failure.
pub open spec fn table_of_pairs(pairs: Seq<(YamlValue, YamlValue)>) -> Result<
    Map<Seq<char>, PreferredView>,
    OverrideError,
>
    decreases pairs.len(),
{
    if pairs.len() == 0 {
        Ok(Map::empty())
    } else {
        match table_of_pairs(pairs.drop_last()) {
            Err(error) => Err(error),
            Ok(table) => match yaml_string(pairs.last().0) {
                None => Err(OverrideError::NotAString),
                Some(key) => match preferred_of_yaml(pairs.last().1) {
                    Ok(p) => Ok(table.insert(key, p)),
                    Err(error) => Err(error),
                },
            },
        }
    }
}

/// The table that a YAML document states.
pub open spec fn table_of_yaml(doc: YamlValue) -> Result<
    Map<Seq<char>, PreferredView>,
    OverrideError,
> {
    match doc {
        YamlValue::Mapping(pairs) => table_of_pairs(pairs@),
        _ => Err(OverrideError::NotAMapping),
    }
}

/// Once a pair has failed, the pairs behind it change nothing.
pub proof fn lemma_field_error_stays(pairs: Seq<(YamlValue, YamlValue)>, n: int)
    requires
        0 <= n <= pairs.len(),
        preferred_of_pairs(pairs.take(n)) is Err,
    ensures
        preferred_of_pairs(pairs) == preferred_of_pairs(pairs.take(n)),
    decreases pairs.len() - n,
{
    if n < pairs.len() {
        assert(pairs.take(n + 1).drop_last() == pairs.take(n));
        lemma_field_error_stays(pairs, n + 1);
    } else {
        assert(pairs.take(n) == pairs);
    }
}

/// Once a pair has failed, the pairs behind it change nothing.
pub proof fn lemma_table_error_stays(pairs: Seq<(YamlValue, YamlValue)>, n: int)
    requires
        0 <= n <= pairs.len(),
        table_of_pairs(pairs.take(n)) is Err,
    ensures
        table_of_pairs(pairs) == table_of_pairs(pairs.take(n)),
    decreases pairs.len() - n,
{
    if n < pairs.len() {
        assert(pairs.take(n + 1).drop_last() == pairs.take(n));
        lemma_table_error_stays(pairs, n + 1);
    } else {
        assert(pairs.take(n) == pairs);
    }
}

/// The preference that a YAML value states: a mapping of strings, of which
/// the keys `pinyin` and `trad` count.
#[verifier::loop_isolation(false)]
pub fn yaml_to_preferred_entry(y: &YamlValue) -> (r: Result<PreferredEntry, OverrideError>)
    ensures
        match r {
            Ok(p) => preferred_of_yaml(*y) == Ok::<PreferredView, OverrideError>(p@),
            Err(error) => preferred_of_yaml(*y) == Err::<PreferredView, OverrideError>(error),
        },
{
    let mapping = match y {
        YamlValue::Mapping(m) => m,
        _ => {
            return Err(OverrideError::NotAMapping);
        },
    };
    let mut rv = PreferredEntry { pinyin: String::new(), trad: String::new() };
    let mut i: usize = 0;
    while i < mapping.len()
        invariant
            i <= mapping.len(),
            preferred_of_pairs(mapping@.take(i as int)) == Ok::<PreferredView, OverrideError>(rv@),
        decreases mapping.len() - i,
    {
        assert(mapping@.take(i + 1).drop_last() == mapping@.take(i as int));
        let pair = &mapping[i];
        match (&pair.0, &pair.1) {
            (YamlValue::String(key), YamlValue::String(value)) => {
                if str_eq(key.as_str(), "pinyin") {
                    rv.pinyin = value.clone();
                } else if str_eq(key.as_str(), "trad") {
                    rv.trad = value.clone();
                }
            },
            _ => {
                proof {
                    lemma_field_error_stays(mapping@, i + 1);
                }
                return Err(OverrideError::NotAString);
            },
        }
        i += 1;
    }
    assert(mapping@.take(mapping.len() as int) == mapping@);
    Ok(rv)
}

/// The table of preferred entries that a YAML document states: a mapping
/// from keys to preferences. A document of another shape gives the failure
/// of its first pair that is out of shape.
#[verifier::loop_isolation(false)]
pub fn get_preferred_entry_map(doc: &YamlValue) -> (r: Result<PreferredEntryMap, OverrideError>)
    ensures
        match r {
            Ok(table) => table_of_yaml(*doc) == Ok::<Map<Seq<char>, PreferredView>, OverrideError>(
                table@,
            ),
            Err(error) => table_of_yaml(*doc) == Err::<
                Map<Seq<char>, PreferredView>,
                OverrideError,
            >(error),
        },
{
    let pairs = match doc {
        YamlValue::Mapping(m) => m,
        _ => {
            return Err(OverrideError::NotAMapping);
        },
    };
    let mut rv = PreferredEntryMap::new();
    let mut i: usize = 0;
    while i < pairs.len()
        invariant
            i <= pairs.len(),
            table_of_pairs(pairs@.take(i as int)) == Ok::<
                Map<Seq<char>, PreferredView>,
                OverrideError,
            >(rv@),
        decreases pairs.len() - i,
    {
        assert(pairs@.take(i + 1).drop_last() == pairs@.take(i as int));
        let pair = &pairs[i];
        let key = match &pair.0 {
            YamlValue::String(s) => s.clone(),
            _ => {
                proof {
                    lemma_table_error_stays(pairs@, i + 1);
                }
                return Err(OverrideError::NotAString);
            },
        };
        match yaml_to_preferred_entry(&pair.1) {
            Ok(p) => {
                rv.insert(key, p);
            },
            Err(error) => {
                proof {
                    lemma_table_error_stays(pairs@, i + 1);
                }
                return Err(error);
            },
        }
        i += 1;
    }
    assert(pairs@.take(pairs.len() as int) == pairs@);
    Ok(rv)
}

/// Where a headword has two senses, a proper noun, whose pronunciation
/// begins with a capital, and a good entry that is no erhua form, and the
/// table prefers nothing for the headword, the good entry is chosen,
/// whichever of the two comes first.
pub proof fn law_common_noun_wins(
    entries: Seq<EntryView>,
    table: Map<Seq<char>, PreferredView>,
    simp: Seq<char>,
    part_of_speech: Option<Seq<char>>,
    proper: EntryView,
    common: EntryView,
)
    requires
        search_result(entries, simp_query(simp)) == seq![proper, common] || search_result(
            entries,
            simp_query(simp),
        ) == seq![common, proper],
        !table.contains_key(override_key(simp, part_of_speech)),
        proper.pinyin.len() > 0 && 'A' <= proper.pinyin[0] && proper.pinyin[0] <= 'Z',
        is_good_entry(common),
        !is_erhua(common),
    ensures
        resolve(entries, table, simp, part_of_speech) == Ok::<EntryView, ResolveError>(common),
{
    let senses = search_result(entries, simp_query(simp));
    assert(senses.len() == 2);
    assert(!is_good_entry(proper));
    if senses == seq![proper, common] {
        assert(senses[1] == common);
        assert(last_good(senses, 2) == Some(1int));
    } else {
        assert(senses[1] == proper);
        assert(senses[0] == common);
        assert(last_good(senses, 1) == Some(0int));
        assert(last_good(senses, 2) == Some(0int));
    }
}

/// A preference without a pronunciation is met by every entry with its
/// traditional form, whatever the pronunciation of the entry.
pub proof fn law_override_wildcard(p: PreferredView, e: EntryView)
    requires
        p.pinyin.len() == 0,
        p.trad == e.trad,
    ensures
        override_matches(p, e),
{
}

/// Among the senses of a headword, the first that meets what the table
/// prefers is chosen, good or not.
pub proof fn law_override_wins(entries: Seq<EntryView>, p: PreferredView, i: int)
    requires
        0 <= i < entries.len(),
        override_matches(p, entries[i]),
        forall|j: int| 0 <= j < i ==> !override_matches(p, #[trigger] entries[j]),
    ensures
        chosen_position(entries, Some(p)) == i,
{
    lemma_first_override(entries, p, 0, i);
}

/// The search for the first entry that meets a preference finds the least
/// position of such an entry.
pub proof fn lemma_first_override(entries: Seq<EntryView>, p: PreferredView, from: int, i: int)
    requires
        0 <= from <= i < entries.len(),
        override_matches(p, entries[i]),
        forall|j: int| from <= j < i ==> !override_matches(p, #[trigger] entries[j]),
    ensures
        first_override(entries, p, from) == Some(i),
    decreases i - from,
{
    if from < i {
        lemma_first_override(entries, p, from + 1, i);
    }
}

/// Two resolutions of the same headword with the same hint, in the same
/// dictionary and with the same table, return the same: the result of
/// `best_entry` is a function of what its arguments hold.
pub proof fn law_same_inputs_same_entry(
    first: Result<Entry, ResolveError>,
    second: Result<Entry, ResolveError>,
    entries: Seq<EntryView>,
    table: Map<Seq<char>, PreferredView>,
    simp: Seq<char>,
    part_of_speech: Option<Seq<char>>,
)
    requires
        resolved_view(first) == resolve(entries, table, simp, part_of_speech),
        resolved_view(second) == resolve(entries, table, simp, part_of_speech),
    ensures
        resolved_view(first) == resolved_view(second),
{
}

} // verus!
