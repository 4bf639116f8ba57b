use chinese_notes::cedict::{parse_entry, Entry};
use chinese_notes::index::Dict;
use chinese_notes::preferred_entry::{
    best_entry, get_preferred_entry_map, is_good, yaml_to_preferred_entry, OverrideError,
    PreferredEntry, PreferredEntryGetter, PreferredEntryMap, ResolveError, YamlValue,
};

const DICT: &str = "乾 干 [Gan1] /surname Gan/\n\
乾 干 [gan1] /dry/clean/\n\
幹 干 [gan4] /tree trunk/to do/\n\
榦 干 [gan4] /variant of 幹[gan4]/\n\
長 长 [chang2] /long/\n\
長 长 [zhang3] /chief/to grow/\n\
花兒 花儿 [hua1 r5] /erhua variant of 花[hua1]/\n\
花 花 [hua1] /flower/Taiwan pr. [hua5]/CL:朵[duo3]/\n\
玩兒 玩儿 [wan2 r5] /erhua variant of 玩[wan2]/\n\
兒 儿 [r5] /erhua variant of nothing/\n\
個 个 [ge4] /see 個[ge4]/\n";

fn entry(line: &str) -> Entry {
    parse_entry(line).unwrap()
}

fn string(s: &str) -> YamlValue {
    YamlValue::String(s.to_string())
}

#[test]
fn common_noun_wins_over_proper_noun() {
    let empty = PreferredEntryMap::new();
    let dict = Dict::new("乾 干 [Gan1] /surname Gan/\n乾 干 [gan1] /dry/clean/\n");
    assert_eq!(best_entry("干", None, &dict, &empty).unwrap().pinyin, "gan1");
    let dict = Dict::new("乾 干 [gan1] /dry/clean/\n乾 干 [Gan1] /surname Gan/\n");
    assert_eq!(best_entry("干", None, &dict, &empty).unwrap().pinyin, "gan1");
}

#[test]
fn last_good_entry_wins() {
    let dict = Dict::new(DICT);
    let empty = PreferredEntryMap::new();
    let e = best_entry("干", None, &dict, &empty).unwrap();
    assert_eq!(e.trad, "幹");
    assert_eq!(e.defs, vec!["tree trunk".to_string(), "to do".to_string()]);
    assert_eq!(best_entry("长", None, &dict, &empty).unwrap().pinyin, "zhang3");
}

#[test]
fn first_entry_where_none_is_good() {
    let dict = Dict::new("乾 干 [Gan1] /surname Gan/\n榦 干 [gan4] /variant of 幹[gan4]/\n");
    let empty = PreferredEntryMap::new();
    assert_eq!(best_entry("干", None, &dict, &empty).unwrap().pinyin, "Gan1");
}

#[test]
fn override_without_pronunciation_goes_by_traditional_form() {
    let dict = Dict::new(DICT);
    let mut table = PreferredEntryMap::new();
    table.insert("干".to_string(), PreferredEntry { pinyin: "".to_string(), trad: "乾".to_string() });
    let e = best_entry("干", None, &dict, &table).unwrap();
    assert_eq!(e.trad, "乾");
    assert_eq!(e.pinyin, "Gan1");
}

#[test]
fn override_by_pronunciation_and_hint() {
    let dict = Dict::new(DICT);
    let mut table = PreferredEntryMap::new();
    table.insert("长 adj".to_string(), PreferredEntry { pinyin: "chang2".to_string(), trad: "".to_string() });
    table.insert("干".to_string(), PreferredEntry { pinyin: "gan1".to_string(), trad: "乾".to_string() });
    assert_eq!(best_entry("长", Some("adj"), &dict, &table).unwrap().pinyin, "chang2");
    assert_eq!(best_entry("长", None, &dict, &table).unwrap().pinyin, "zhang3");
    assert_eq!(best_entry("长", Some("verb"), &dict, &table).unwrap().pinyin, "zhang3");
    assert_eq!(best_entry("干", None, &dict, &table).unwrap().pinyin, "gan1");
}

#[test]
fn later_insert_replaces_earlier() {
    let mut table = PreferredEntryMap::new();
    assert!(table.get("干").is_none());
    table.insert("干".to_string(), PreferredEntry { pinyin: "gan1".to_string(), trad: "".to_string() });
    table.insert("干".to_string(), PreferredEntry { pinyin: "gan4".to_string(), trad: "".to_string() });
    assert_eq!(table.get("干").unwrap().pinyin, "gan4");
    assert!(table.get("长").is_none());
}

#[test]
fn override_that_no_entry_meets_is_passed_over() {
    let dict = Dict::new(DICT);
    let mut table = PreferredEntryMap::new();
    table.insert("干".to_string(), PreferredEntry { pinyin: "gan9".to_string(), trad: "".to_string() });
    assert_eq!(best_entry("干", None, &dict, &table).unwrap().trad, "幹");
}

#[test]
fn erhua_form_takes_the_meaning_of_its_word() {
    let dict = Dict::new(DICT);
    let empty = PreferredEntryMap::new();
    let e = best_entry("花儿", None, &dict, &empty).unwrap();
    assert_eq!(e.trad, "花兒");
    assert_eq!(e.simp, "花儿");
    assert_eq!(e.pinyin, "hua1 r5");
    assert_eq!(e.tw_pinyin, "hua5");
    assert_eq!(e.defs, vec!["flower".to_string()]);
    assert_eq!(e.clfrs.len(), 1);
    assert_eq!(e.clfrs[0].trad, "朵");
}

#[test]
fn erhua_form_of_one_character_fails() {
    let dict = Dict::new(DICT);
    let empty = PreferredEntryMap::new();
    assert_eq!(best_entry("儿", None, &dict, &empty), Err(ResolveError::ChaseUnderflow));
}

#[test]
fn missing_headword_fails() {
    let dict = Dict::new(DICT);
    let empty = PreferredEntryMap::new();
    assert_eq!(best_entry("没有", None, &dict, &empty), Err(ResolveError::NoEntry));
    assert_eq!(best_entry("玩儿", None, &dict, &empty), Err(ResolveError::NoEntry));
    assert_eq!(best_entry("", None, &dict, &empty), Err(ResolveError::NoEntry));
}

#[test]
fn resolving_twice_gives_the_same() {
    let dict = Dict::new(DICT);
    let getter = PreferredEntryGetter::new(&dict, PreferredEntryMap::new());
    assert_eq!(getter.get("花儿", None), getter.get("花儿", None));
    assert_eq!(getter.get("干", Some("noun")), getter.get("干", Some("noun")));
    assert_eq!(getter.get("儿", None), getter.get("儿", None));
}

#[test]
fn references_and_proper_nouns_are_not_good() {
    assert!(is_good(&entry("乾 干 [gan1] /dry/")));
    assert!(!is_good(&entry("乾 干 [Gan1] /surname Gan/")));
    assert!(!is_good(&entry("榦 干 [gan4] /variant of 幹[gan4]/")));
    assert!(!is_good(&entry("榦 干 [gan4] /old variant of 幹[gan4]/")));
    assert!(!is_good(&entry("個 个 [ge4] /see 個[ge4]/")));
    assert!(!is_good(&entry("個 个 [ge4] /see a[b[c]/")));
    assert!(is_good(&entry("個 个 [ge4] /see also 個[ge4]/")));
    assert!(is_good(&entry("個 个 [ge4] /see 個[ge4] too/")));
    assert!(is_good(&entry("個 个 [ge4] /see 個[]/")));
    assert!(is_good(&entry("個 个 [ge4] /see [ge4]/")));
    assert!(is_good(&entry("個 个 [ge4] /see a[b]]/")));
    assert!(is_good(&entry("個 个 [ge4] /an old variant of x/")));
    assert!(is_good(&entry("個 个 [ge4] /CL:個[ge4]/")));
}

#[test]
fn table_is_read_from_yaml() {
    let doc = YamlValue::Mapping(vec![
        (
            string("干"),
            YamlValue::Mapping(vec![(string("pinyin"), string("gan1")), (string("note"), string("x"))]),
        ),
        (
            string("长 adj"),
            YamlValue::Mapping(vec![
                (string("trad"), string("長")),
                (string("pinyin"), string("a")),
                (string("pinyin"), string("chang2")),
            ]),
        ),
        (string("空"), YamlValue::Mapping(vec![])),
    ]);
    let table = get_preferred_entry_map(&doc).unwrap();
    assert_eq!(
        table.get("干"),
        Some(&PreferredEntry { pinyin: "gan1".to_string(), trad: "".to_string() })
    );
    assert_eq!(
        table.get("长 adj"),
        Some(&PreferredEntry { pinyin: "chang2".to_string(), trad: "長".to_string() })
    );
    assert_eq!(
        table.get("空"),
        Some(&PreferredEntry { pinyin: "".to_string(), trad: "".to_string() })
    );
    assert_eq!(table.get("长"), None);
}

#[test]
fn yaml_of_another_shape_is_refused() {
    assert_eq!(get_preferred_entry_map(&YamlValue::Other).err(), Some(OverrideError::NotAMapping));
    assert_eq!(get_preferred_entry_map(&string("x")).err(), Some(OverrideError::NotAMapping));
    let doc = YamlValue::Mapping(vec![(YamlValue::Other, YamlValue::Mapping(vec![]))]);
    assert_eq!(get_preferred_entry_map(&doc).err(), Some(OverrideError::NotAString));
    let doc = YamlValue::Mapping(vec![(string("干"), string("gan1"))]);
    assert_eq!(get_preferred_entry_map(&doc).err(), Some(OverrideError::NotAMapping));
    let doc = YamlValue::Mapping(vec![
        (string("干"), YamlValue::Mapping(vec![(string("pinyin"), YamlValue::Other)])),
        (string("长"), YamlValue::Other),
    ]);
    assert_eq!(get_preferred_entry_map(&doc).err(), Some(OverrideError::NotAString));
    assert_eq!(yaml_to_preferred_entry(&YamlValue::Other), Err(OverrideError::NotAMapping));
    assert_eq!(
        yaml_to_preferred_entry(&YamlValue::Mapping(vec![(YamlValue::Other, string("x"))])),
        Err(OverrideError::NotAString)
    );
}
