use chinese_notes::cedict::{malformed_classifiers, malformed_readings, parse_entry, Classifier};
use chinese_notes::index::{Dict, DictSearchParams};

const SAMPLE: &str = "# a comment line\n\
紀錄片 纪录片 [ji4 lu4 pian4] /newsreel/documentary/CL:部[bu4]/\n\
乾 干 [Gan1] /surname Gan/\n\
乾 干 [gan1] /dry/clean/\n\
幹 干 [gan4] /tree trunk/to do/\n\
垃圾 垃圾 [la1 ji1] /trash/Taiwan pr. [le4 se4]/\n";

#[test]
fn documentary_line_parses() {
    let e = parse_entry("紀錄片 纪录片 [ji4 lu4 pian4] /newsreel/documentary/CL:部[bu4]/").unwrap();
    assert_eq!(e.trad, "紀錄片");
    assert_eq!(e.simp, "纪录片");
    assert_eq!(e.pinyin, "ji4 lu4 pian4");
    assert_eq!(e.tw_pinyin, "");
    assert_eq!(e.defs, vec!["newsreel".to_string(), "documentary".to_string()]);
    assert_eq!(e.clfrs.len(), 1);
    assert_eq!(e.clfrs[0].trad, "部");
    assert_eq!(e.clfrs[0].simp, "部");
    assert_eq!(e.clfrs[0].pinyin, "bu4");
}

#[test]
fn taiwan_gloss_becomes_regional_pronunciation() {
    let e = parse_entry("垃圾 垃圾 [la1 ji1] /trash/Taiwan pr. [le4 se4]/refuse/").unwrap();
    assert_eq!(e.tw_pinyin, "le4 se4");
    assert_eq!(e.defs, vec!["trash".to_string(), "refuse".to_string()]);
    let plain = parse_entry("垃圾 垃圾 [la1 ji1] /trash/").unwrap();
    assert_eq!(plain.tw_pinyin, "");
}

#[test]
fn inexact_taiwan_gloss_stays_a_gloss() {
    let e = parse_entry("垃圾 垃圾 [la1 ji1] /trash/Taiwan pr. [le4 se4] too/Taiwan pr. [lè]/").unwrap();
    assert_eq!(e.tw_pinyin, "");
    assert_eq!(e.defs.len(), 3);
}

#[test]
fn classifier_with_both_forms() {
    let e = parse_entry("書 书 [shu1] /book/CL:本[ben3],冊|册[ce4],oops/").unwrap();
    assert_eq!(e.defs, vec!["book".to_string()]);
    assert_eq!(
        e.clfrs,
        vec![
            Classifier { trad: "本".to_string(), simp: "本".to_string(), pinyin: "ben3".to_string() },
            Classifier { trad: "冊".to_string(), simp: "册".to_string(), pinyin: "ce4".to_string() },
        ]
    );
}

#[test]
fn several_classifier_glosses_are_all_read() {
    let e = parse_entry("x y [p] /CL:個|个[ge4]/thing/CL:隻|只[zhi1]/").unwrap();
    assert_eq!(e.defs, vec!["thing".to_string()]);
    assert_eq!(e.clfrs.len(), 2);
    assert_eq!(e.clfrs[1].simp, "只");
}

#[test]
fn lines_of_another_shape_give_none() {
    assert!(parse_entry("").is_none());
    assert!(parse_entry("# CC-CEDICT").is_none());
    assert!(parse_entry("a b [c] /").is_none());
    assert!(parse_entry("a b [c] //").is_none());
    assert!(parse_entry(" b [c] /d/").is_none());
    assert!(parse_entry("a b c /d/").is_none());
}

#[test]
fn fields_end_at_the_first_separator() {
    let e = parse_entry("a b c [d] [e] /f/g/ trailing").unwrap();
    assert_eq!(e.trad, "a");
    assert_eq!(e.simp, "b c");
    assert_eq!(e.pinyin, "d] [e");
    assert_eq!(e.defs, vec!["f".to_string(), "g".to_string()]);
}

#[test]
fn first_parsable_line_counts() {
    let e = parse_entry("junk\na b [c] /d/").unwrap();
    assert_eq!(e.trad, "a");
}

#[test]
fn search_by_simplified_keeps_source_order() {
    let dict = Dict::new(SAMPLE);
    let found = dict.search_simp("干");
    assert_eq!(found.len(), 3);
    assert_eq!(found[0].pinyin, "Gan1");
    assert_eq!(found[1].pinyin, "gan1");
    assert_eq!(found[2].pinyin, "gan4");
}

#[test]
fn search_checks_every_field() {
    let dict = Dict::new(SAMPLE);
    let found = dict.search(DictSearchParams { simp: Some("干"), trad: Some("乾"), pinyin: Some("GAN1") });
    assert_eq!(found.len(), 2);
    assert_eq!(found[0].pinyin, "Gan1");
    assert_eq!(found[1].pinyin, "gan1");
    let none = dict.search(DictSearchParams { simp: Some("干"), trad: Some("紀錄片"), pinyin: None });
    assert!(none.is_empty());
    let fallthrough = dict.search(DictSearchParams { simp: Some("干"), trad: Some("absent"), pinyin: None });
    assert!(fallthrough.is_empty());
}

#[test]
fn search_by_pronunciation_ignores_case() {
    let dict = Dict::new(SAMPLE);
    let found = dict.search(DictSearchParams { simp: None, trad: None, pinyin: Some("gan1") });
    assert_eq!(found.len(), 2);
    let found = dict.search(DictSearchParams { simp: None, trad: None, pinyin: Some("LA1 JI1") });
    assert_eq!(found.len(), 1);
    assert_eq!(found[0].tw_pinyin, "le4 se4");
}

#[test]
fn empty_query_finds_nothing() {
    let dict = Dict::new(SAMPLE);
    assert!(dict.search(DictSearchParams { simp: None, trad: None, pinyin: None }).is_empty());
    assert!(dict.search_simp("没有").is_empty());
}

#[test]
fn extra_entries_come_first() {
    let dict = Dict::new_with_extra_entries("乾 干 [gan9] /made up/\n", SAMPLE);
    let found = dict.search_simp("干");
    assert_eq!(found.len(), 4);
    assert_eq!(found[0].pinyin, "gan9");
}

#[test]
fn every_entry_is_found_by_its_simplified_form() {
    let dict = Dict::new(SAMPLE);
    for line in SAMPLE.split('\n') {
        if let Some(e) = parse_entry(line) {
            assert!(dict.search_simp(&e.simp).contains(&e));
        }
    }
}

#[test]
fn malformed_classifiers_are_handed_back() {
    assert_eq!(
        malformed_classifiers("書 书 [shu1] /book/CL:本[ben3],oops,冊|册[ce4]/CL:|[x],a[]/"),
        vec!["oops".to_string(), "|[x]".to_string(), "a[]".to_string()]
    );
    assert!(malformed_classifiers("書 书 [shu1] /book/CL:本[ben3]/").is_empty());
    assert!(malformed_classifiers("# CL:oops").is_empty());
}

#[test]
fn classifier_begins_at_the_leftmost_fitting_position() {
    let e = parse_entry("x y [p] /CL:a|[x]b[y]/").unwrap();
    assert_eq!(e.clfrs.len(), 1);
    assert_eq!(e.clfrs[0].trad, "x]b");
    assert_eq!(e.clfrs[0].simp, "x]b");
    assert_eq!(e.clfrs[0].pinyin, "y");
    let e = parse_entry("x y [p] /CL:a|b|c[d]e]/").unwrap();
    assert_eq!(e.clfrs[0].trad, "a");
    assert_eq!(e.clfrs[0].simp, "b|c");
    assert_eq!(e.clfrs[0].pinyin, "d]e");
}

#[test]
fn last_taiwan_gloss_counts() {
    let e = parse_entry("x y [p] /Taiwan pr. [a1]/g/Taiwan pr. [b2]/").unwrap();
    assert_eq!(e.tw_pinyin, "b2");
    assert_eq!(e.defs, vec!["g".to_string()]);
}

#[test]
fn empty_glosses_between_slashes_stay() {
    let e = parse_entry("x y [p] /a//b/").unwrap();
    assert_eq!(e.defs, vec!["a".to_string(), "".to_string(), "b".to_string()]);
}

#[test]
fn inexact_taiwan_glosses_are_handed_back() {
    assert_eq!(
        malformed_readings("垃圾 垃圾 [la1 ji1] /trash/Taiwan pr. [le4 se4] too/Taiwan pr. [le4]/Taiwan pr. [lè]/Taiwan pr. []/"),
        vec![
            "Taiwan pr. [le4 se4] too".to_string(),
            "Taiwan pr. [lè]".to_string(),
            "Taiwan pr. []".to_string(),
        ]
    );
    assert!(malformed_readings("垃圾 垃圾 [la1 ji1] /trash/Taiwan pr. [le4 se4]/").is_empty());
    assert!(malformed_readings("Taiwan pr. nothing").is_empty());
}

#[test]
fn large_dictionary_is_indexed() {
    let mut text = String::new();
    for n in 0..20000 {
        text.push_str(&format!("繁{} 简{} [Zi4 {}] /gloss {}/CL:個|个[ge4]/\n", n, n % 5000, n % 100, n));
    }
    let dict = Dict::new(&text);
    for n in (0..5000).step_by(7) {
        let found = dict.search_simp(&format!("简{}", n));
        assert_eq!(found.len(), 4);
        assert_eq!(found[0].trad, format!("繁{}", n));
        assert_eq!(found[3].trad, format!("繁{}", n + 15000));
        let one = dict.search(DictSearchParams {
            simp: Some(&format!("简{}", n)),
            trad: Some(&format!("繁{}", n + 5000)),
            pinyin: Some(&format!("zi4 {}", n % 100)),
        });
        assert_eq!(one.len(), 1);
        assert_eq!(one[0].defs, vec![format!("gloss {}", n + 5000)]);
    }
    let by_sound = dict.search(DictSearchParams { simp: None, trad: None, pinyin: Some("ZI4 7") });
    assert_eq!(by_sound.len(), 200);
    assert!(dict.search_simp("简5000").is_empty());
}

#[test]
fn empty_dictionary_finds_nothing() {
    let dict = Dict::new("");
    assert!(dict.search_simp("干").is_empty());
    assert!(dict.search(DictSearchParams { simp: None, trad: Some(""), pinyin: None }).is_empty());
}
