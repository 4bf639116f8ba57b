use chinese_notes::hanping::{get_chinese_notes, parse_line};
use chinese_notes::hsk::{get_hsk_words, HskWord};
use chinese_notes::index::Dict;
use chinese_notes::ingest::IngestError;
use chinese_notes::preferred_entry::{PreferredEntryGetter, PreferredEntryMap, ResolveError};

const DICT: &str = "紀錄片 纪录片 [ji4 lu4 pian4] /newsreel/documentary/CL:部[bu4]/\n\
粗 粗 [cu1] /coarse/rough/\n\
乾 干 [Gan1] /surname Gan/\n\
乾 干 [gan1] /dry/clean/\n\
花兒 花儿 [hua1 r5] /erhua variant of 花[hua1]/\n\
花 花 [hua1] /flower/CL:朵[duo3]/\n\
兒 儿 [r5] /erhua variant of nothing/\n";

#[test]
fn jilupian_line_parses_correctly() {
    let line = "紀錄片 [纪录-]     jì lù piàn       newsreel • documentary (film or TV program) • CL: 部 (bù)";
    let parsed_line = parse_line(line).unwrap();
    assert_eq!(parsed_line.trad, "紀錄片");
    assert_eq!(parsed_line.simp, "纪录片");
    assert_eq!(parsed_line.pinyin, "ji4 lu4 pian4");
}

#[test]
fn cu_line_parses_correctly() {
    // tests case where trad == simp, and there is exactly one space between records
    let line = "粗 cū coarse • rough • thick (for cylindrical objects) • unfinished • vulgar • rude • crude";
    let parsed_line = parse_line(line).unwrap();
    assert_eq!(parsed_line.trad, "粗");
    assert_eq!(parsed_line.simp, "粗");
    assert_eq!(parsed_line.pinyin, "cu1");
}

#[test]
fn line_without_fields_is_refused_by_name() {
    assert_eq!(
        parse_line("word").unwrap_err(),
        "Could not parse Hanping word list line: word"
    );
    assert!(parse_line("").is_err());
    assert!(parse_line("a ").is_err());
    assert!(parse_line("a b\nc d").is_err());
}

#[test]
fn line_with_only_spaces_left_keeps_one() {
    let p = parse_line("ab  ").unwrap();
    assert_eq!(p.trad, "ab");
    assert_eq!(p.simp, "ab");
    assert_eq!(p.pinyin, "5 5");
}

#[test]
fn fewer_syllables_than_characters_takes_all() {
    let p = parse_line("乾淨 gān").unwrap();
    assert_eq!(p.pinyin, "gan1");
}

#[test]
fn dashes_take_the_traditional_character() {
    let p = parse_line("乾淨 [干净] gān jìng clean").unwrap();
    assert_eq!(p.simp, "干净");
    let p = parse_line("乾淨 [干-] gān jìng clean").unwrap();
    assert_eq!(p.simp, "干淨");
    let p = parse_line("乾淨 [-] gān jìng clean").unwrap();
    assert_eq!(p.simp, "乾");
}

#[test]
fn unclosed_bracket_is_part_of_the_rest() {
    let p = parse_line("a [b c d").unwrap();
    assert_eq!(p.trad, "a");
    assert_eq!(p.simp, "a");
    assert_eq!(p.pinyin, "[b5");
}

#[test]
fn notes_take_the_last_matching_entry() {
    let got = get_chinese_notes("乾 [干] gān dry\n粗 cū coarse\n無 wú nothing", "", DICT).unwrap();
    let notes = got.notes;
    assert_eq!(notes.len(), 2);
    assert_eq!(notes[0].ce.pinyin, "gan1");
    assert!(notes[0].tags.is_empty());
    assert_eq!(notes[1].ce.simp, "粗");
}

#[test]
fn lines_without_exactly_one_entry_are_handed_back() {
    let got = get_chinese_notes("乾 [干] gān dry\n粗 cū coarse\n無 wú nothing", "", DICT).unwrap();
    assert_eq!(got.unclear.len(), 2);
    assert_eq!(got.unclear[0].line.simp, "干");
    assert_eq!(got.unclear[0].line.pinyin, "gan1");
    assert_eq!(got.unclear[0].entries, 2);
    assert_eq!(got.unclear[1].line.trad, "無");
    assert_eq!(got.unclear[1].entries, 0);
}

#[test]
fn notes_fail_on_the_first_bad_line() {
    let err = get_chinese_notes("粗 cū coarse\nbad\nworse", "", DICT).unwrap_err();
    assert_eq!(err, "Could not parse Hanping word list line: bad");
    let err = get_chinese_notes("粗 cū coarse\n", "", DICT).unwrap_err();
    assert_eq!(err, "Could not parse Hanping word list line: ");
}

#[test]
fn extra_entries_are_searched_too() {
    let got = get_chinese_notes("無 wú nothing", "無 无 [wu2] /nothing/\n", DICT);
    assert!(got.unwrap().notes.is_empty());
    let got = get_chinese_notes("無 [无] wú nothing", "無 无 [wu2] /nothing/\n", DICT).unwrap();
    assert_eq!(got.notes.len(), 1);
    assert_eq!(got.notes[0].ce.defs, vec!["nothing".to_string()]);
    assert!(got.unclear.is_empty());
}

#[test]
fn hsk_rows_are_read() {
    let words = get_hsk_words("干,,3\n花,noun,1\n\na,b,c,9\n").unwrap();
    assert_eq!(
        words,
        vec![
            HskWord { simp: "干".to_string(), part_of_speech: "".to_string(), level: 3 },
            HskWord { simp: "花".to_string(), part_of_speech: "noun".to_string(), level: 1 },
            HskWord { simp: "a".to_string(), part_of_speech: "b,c".to_string(), level: 9 },
        ]
    );
}

#[test]
fn hsk_bad_row_is_named() {
    assert_eq!(get_hsk_words("干,,3\n花,1\n").unwrap_err(), IngestError::BadRow { row: 1 });
    assert_eq!(get_hsk_words("干,,x").unwrap_err(), IngestError::BadRow { row: 0 });
    assert_eq!(get_hsk_words(",a,3").unwrap_err(), IngestError::BadRow { row: 0 });
    assert_eq!(get_hsk_words("干,,3\r\n").unwrap_err(), IngestError::BadRow { row: 0 });
}

#[test]
fn hsk_notes_carry_the_level() {
    let dict = Dict::new(DICT);
    let getter = PreferredEntryGetter::new(&dict, PreferredEntryMap::new());
    let got = chinese_notes::hsk::get_chinese_notes("干,,3\n没有,,2\n纪录,,5\n花儿,,1\n", &getter).unwrap();
    assert_eq!(got.missing, vec!["没有".to_string()]);
    let notes = got.notes;
    assert_eq!(notes.len(), 2);
    assert_eq!(notes[0].ce.pinyin, "gan1");
    assert_eq!(notes[0].tags, vec!["HSK_Level_3".to_string()]);
    assert_eq!(notes[1].ce.simp, "花儿");
    assert_eq!(notes[1].ce.defs, vec!["flower".to_string()]);
    assert_eq!(notes[1].tags, vec!["HSK_Level_1".to_string()]);
}

#[test]
fn hsk_notes_fail_where_no_entry_can_be_chosen() {
    let dict = Dict::new(DICT);
    let getter = PreferredEntryGetter::new(&dict, PreferredEntryMap::new());
    let err = chinese_notes::hsk::get_chinese_notes("干,,3\n儿,,1\n", &getter).unwrap_err();
    assert_eq!(err, IngestError::Unresolved { error: ResolveError::ChaseUnderflow });
    let err = chinese_notes::hsk::get_chinese_notes("干,3\n", &getter).unwrap_err();
    assert_eq!(err, IngestError::BadRow { row: 0 });
}

#[test]
fn lesson_notes_carry_level_and_lesson() {
    let dict = Dict::new(DICT);
    let getter = PreferredEntryGetter::new(&dict, PreferredEntryMap::new());
    let got = chinese_notes::integrated::get_chinese_notes("干,1,12\n没有,1,2\n\"花\",2,+3\n", &getter).unwrap();
    assert_eq!(got.missing, vec!["没有".to_string()]);
    let notes = got.notes;
    assert_eq!(notes.len(), 2);
    assert_eq!(notes[0].ce.pinyin, "gan1");
    assert_eq!(notes[0].tags, vec!["IC_1_12".to_string()]);
    assert_eq!(notes[1].ce.simp, "花");
    assert_eq!(notes[1].tags, vec!["IC_2_3".to_string()]);
}

#[test]
fn lesson_rows_of_another_shape_fail() {
    let dict = Dict::new(DICT);
    let getter = PreferredEntryGetter::new(&dict, PreferredEntryMap::new());
    let err = chinese_notes::integrated::get_chinese_notes("干,1,12\n花,2\n", &getter).unwrap_err();
    assert_eq!(err, IngestError::BadRow { row: 1 });
    let err = chinese_notes::integrated::get_chinese_notes("干,one,12\n", &getter).unwrap_err();
    assert_eq!(err, IngestError::BadRow { row: 0 });
    let err = chinese_notes::integrated::get_chinese_notes("干,1,4294967296\n", &getter).unwrap_err();
    assert_eq!(err, IngestError::BadRow { row: 0 });
    let err = chinese_notes::integrated::get_chinese_notes("儿,1,1\n", &getter).unwrap_err();
    assert_eq!(err, IngestError::Unresolved { error: ResolveError::ChaseUnderflow });
}

#[test]
fn lesson_rows_given_directly() {
    let dict = Dict::new(DICT);
    let getter = PreferredEntryGetter::new(&dict, PreferredEntryMap::new());
    let rows = vec![
        vec!["粗".to_string(), "4294967295".to_string(), "0".to_string()],
    ];
    let got = chinese_notes::integrated::notes_from_rows(&rows, &getter).unwrap();
    assert_eq!(got.notes[0].tags, vec!["IC_4294967295_0".to_string()]);
    assert!(got.missing.is_empty());
}
