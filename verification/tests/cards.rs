use chinese_notes::card::{
    card_ordinals, get_pinyin_dupe_string_fn, get_pinyin_dupes, guid_from_digest, guid_from_str,
    make_clfr_str, make_defs_html, make_fields_text, make_guid_text, make_tags_text,
};
use chinese_notes::cedict::{parse_entry, Classifier};
use chinese_notes::chinese_note::ChineseNote;

fn note(line: &str) -> ChineseNote {
    ChineseNote { ce: parse_entry(line).unwrap(), tags: vec![] }
}

fn notes() -> Vec<ChineseNote> {
    vec![
        note("乾 干 [gan1] /dry/"),
        note("肝 肝 [gan1] /liver/"),
        note("垃圾 垃圾 [la1 ji1] /trash/Taiwan pr. [le4 se4]/"),
        note("甘 甘 [Gan1] /surname Gan/"),
        note("樂色 乐色 [le4 se4] /made up/"),
        note("重 重 [x] /a/Taiwan pr. [X]/"),
    ]
}

#[test]
fn guid_of_known_texts() {
    assert_eq!(guid_from_str("abc"), "FKBh}pT;vL");
    assert_eq!(guid_from_str("kerrick hsk 干 乾 gan1"), "slH)r(;2=U");
    assert_eq!(guid_from_str(""), "ME_YHw2?15");
}

#[test]
fn guid_of_given_digests() {
    assert_eq!(guid_from_digest(&[0, 0, 0, 0, 0, 0, 0, 0]), "");
    assert_eq!(guid_from_digest(&[0, 0, 0, 0, 0, 0, 0, 1, 7]), "b");
    assert_eq!(guid_from_digest(&[0, 0, 0, 0, 0, 0, 0, 91]), "ba");
    assert_eq!(guid_from_digest(&[0, 0, 0, 0, 0, 0, 1, 0]), "c/");
    assert_eq!(guid_from_digest(&[255; 32]), "Rj&Z5m[>Zp");
}

#[test]
fn glosses_become_a_list() {
    let defs = vec![
        "variant of x".to_string(),
        "dry".to_string(),
        "old variant of y".to_string(),
        "also written z".to_string(),
        "to <do>".to_string(),
    ];
    assert_eq!(make_defs_html(&defs), "<ol><li>dry</li> <li>to <do></li></ol>");
    assert_eq!(make_defs_html(&vec![]), "<ol></ol>");
    assert_eq!(make_defs_html(&vec!["variant of x".to_string()]), "<ol></ol>");
    assert_eq!(make_defs_html(&vec!["".to_string(), "".to_string()]), "<ol><li></li> <li></li></ol>");
}

#[test]
fn classifier_shows_its_forms_and_pronunciation() {
    let both = Classifier { trad: "個".to_string(), simp: "个".to_string(), pinyin: "ge4".to_string() };
    assert_eq!(make_clfr_str(&both, true), "個|个(<span class=\"tone4\">gè</span>)");
    assert_eq!(make_clfr_str(&both, false), "个|個(<span class=\"tone4\">gè</span>)");
    let one = Classifier { trad: "部".to_string(), simp: "部".to_string(), pinyin: "bu4".to_string() };
    assert_eq!(make_clfr_str(&one, true), "部(<span class=\"tone4\">bù</span>)");
}

fn chars(s: &str) -> Vec<char> {
    s.chars().collect()
}

#[test]
fn dupes_are_filed_in_lower_case() {
    let notes = notes();
    let dupes = get_pinyin_dupes(&notes);
    assert_eq!(dupes.get(&chars("gan1")), vec![0, 1, 3]);
    assert_eq!(dupes.get(&chars("Gan1")), Vec::<usize>::new());
    assert_eq!(dupes.get(&chars("le4 se4")), vec![2, 4]);
    assert_eq!(dupes.get(&chars("x")), vec![5, 5]);
    assert_eq!(dupes.get(&chars("")), Vec::<usize>::new());
}

#[test]
fn dupe_string_lists_the_other_words() {
    let notes = notes();
    let simp_first = get_pinyin_dupe_string_fn(&notes, false);
    let trad_first = get_pinyin_dupe_string_fn(&notes, true);
    assert_eq!(
        simp_first.call(&notes[0].ce),
        "<span class=\"nobr\">肝</span>\u{2002}<span class=\"nobr\">甘</span>"
    );
    assert_eq!(
        simp_first.call(&notes[3].ce),
        "<span class=\"nobr\">干|乾</span>\u{2002}<span class=\"nobr\">肝</span>"
    );
    assert_eq!(trad_first.call(&notes[2].ce), "<span class=\"nobr\">樂色|乐色</span>");
    assert_eq!(simp_first.call(&notes[4].ce), "<span class=\"nobr\">垃圾</span>");
    assert_eq!(simp_first.call(&notes[5].ce), "");
}

#[test]
fn dupe_string_of_an_unknown_word() {
    let notes = notes();
    let hint = get_pinyin_dupe_string_fn(&notes, false);
    let stranger = parse_entry("無 无 [wu2] /nothing/").unwrap();
    assert_eq!(hint.call(&stranger), "");
    let near = parse_entry("桿 杆 [gan1] /pole/Taiwan pr. [zzz]/").unwrap();
    assert_eq!(
        hint.call(&near),
        "<span class=\"nobr\">干|乾</span>\u{2002}<span class=\"nobr\">肝</span>\u{2002}<span class=\"nobr\">甘</span>"
    );
}

#[test]
fn guid_text_names_the_entry() {
    let e = parse_entry("乾 干 [gan1] /dry/").unwrap();
    assert_eq!(make_guid_text("kerrick hsk", &e), "kerrick hsk 干 乾 gan1");
}

#[test]
fn tags_stand_between_spaces() {
    assert_eq!(make_tags_text(&vec![]), "  ");
    assert_eq!(make_tags_text(&vec!["HSK_Level_1".to_string()]), " HSK_Level_1 ");
    assert_eq!(make_tags_text(&vec!["a".to_string(), "b".to_string()]), " a b ");
}

#[test]
fn fields_are_parted_by_the_unit_separator() {
    let notes = vec![
        note("書 书 [shu1] /book/variant of x/letter/CL:本[ben3],冊|册[ce4]/Taiwan pr. [shu5]/"),
        note("輸 输 [shu1] /to lose/"),
        note("粗 粗 [cu1] /coarse/"),
    ];
    let hint = get_pinyin_dupe_string_fn(&notes, false);
    assert_eq!(
        make_fields_text(&notes[0].ce, &hint),
        [
            "书",
            "書",
            "<span class=\"tone1\">shū</span>",
            "<ol><li>book</li> <li>letter</li></ol>",
            "本(<span class=\"tone3\">běn</span>), 册|冊(<span class=\"tone4\">cè</span>)",
            "<span class=\"tone5\">shu</span>",
            "<span class=\"nobr\">输|輸</span>",
        ]
        .join("\u{1f}")
    );
    assert_eq!(
        make_fields_text(&notes[2].ce, &hint),
        [
            "粗",
            "",
            "<span class=\"tone1\">cū</span>",
            "<ol><li>coarse</li></ol>",
            "",
            "",
            "",
        ]
        .join("\u{1f}")
    );
}

#[test]
fn cards_follow_the_forms() {
    let same = parse_entry("粗 粗 [cu1] /coarse/").unwrap();
    let differ = parse_entry("書 书 [shu1] /book/").unwrap();
    assert_eq!(card_ordinals(&same, false), vec![0, 1, 3]);
    assert_eq!(card_ordinals(&same, true), vec![0, 1, 3]);
    assert_eq!(card_ordinals(&differ, false), vec![0, 1, 2, 3]);
    assert_eq!(card_ordinals(&differ, true), vec![0, 2, 1, 3]);
}
