use chinese_notes::pinyin::{pinyin_to_ascii, prettify_pinyin, toned_char};

#[test]
fn test_pinyin_to_ascii() {
    assert_eq!(pinyin_to_ascii("hē diǎn lǜ chá ba"), "he1 dian3 lu:4 cha2 ba5");
}

#[test]
fn test_tone_not_on_last_vowel() {
    // tests case where tone mark is not on last vowel
    assert_eq!(pinyin_to_ascii("ǒu ěr"), "ou3 er3");
}

#[test]
fn test_prettify_pinyin() {
    assert_eq!(
        prettify_pinyin("he1 dian3 lu:4 cha2 ba5"),
        format!(
            "{}{}{}{}{}",
            "<span class=\"tone1\">hē</span>",
            " <span class=\"tone3\">diǎn</span>",
            " <span class=\"tone4\">lǜ</span>",
            " <span class=\"tone2\">chá</span>",
            " <span class=\"tone5\">ba</span>"
        )
    );
}

#[test]
fn empty_pinyin_stays_empty() {
    assert_eq!(pinyin_to_ascii(""), "");
    assert_eq!(prettify_pinyin(""), "");
}

#[test]
fn syllable_without_mark_gets_tone_five() {
    assert_eq!(pinyin_to_ascii("ma"), "ma5");
    assert_eq!(pinyin_to_ascii(" "), "5 5");
}

#[test]
fn only_first_marked_vowel_loses_its_mark() {
    assert_eq!(pinyin_to_ascii("áà"), "aà2");
}

#[test]
fn bare_umlaut_is_written_in_ascii() {
    assert_eq!(pinyin_to_ascii("lüè"), "lu:e4");
    assert_eq!(pinyin_to_ascii("nǚ"), "nu:3");
}

#[test]
fn mark_goes_to_a_or_e_first() {
    assert_eq!(prettify_pinyin("xiao3"), "<span class=\"tone3\">xiǎo</span>");
    assert_eq!(prettify_pinyin("xue2"), "<span class=\"tone2\">xué</span>");
    assert_eq!(prettify_pinyin("lu:e4"), "<span class=\"tone4\">lüè</span>");
}

#[test]
fn mark_goes_to_o_of_ou() {
    assert_eq!(prettify_pinyin("gou3"), "<span class=\"tone3\">gǒu</span>");
}

#[test]
fn mark_goes_to_vowel_before_consonant_or_end() {
    assert_eq!(prettify_pinyin("liu2"), "<span class=\"tone2\">liú</span>");
    assert_eq!(prettify_pinyin("gui4"), "<span class=\"tone4\">guì</span>");
    assert_eq!(prettify_pinyin("xing1"), "<span class=\"tone1\">xīng</span>");
}

#[test]
fn syllable_without_digit_is_left_alone() {
    assert_eq!(prettify_pinyin("abc"), "abc");
    assert_eq!(prettify_pinyin("lu:"), "lu:");
    assert_eq!(prettify_pinyin("a  b"), "a  b");
    assert_eq!(prettify_pinyin("ma0"), "ma0");
}

#[test]
fn capital_vowel_passes_unmarked() {
    assert_eq!(prettify_pinyin("E2"), "<span class=\"tone2\">E</span>");
}

#[test]
fn toned_char_reads_the_table() {
    assert_eq!(toned_char('a', 1), 'ā');
    assert_eq!(toned_char('ü', 4), 'ǜ');
    assert_eq!(toned_char('o', 5), 'o');
    assert_eq!(toned_char('x', 3), 'x');
}

#[test]
fn span_digits_agree_with_ascii_digits() {
    let ascii = pinyin_to_ascii("nǐ hǎo ma");
    assert_eq!(ascii, "ni3 hao3 ma5");
    assert_eq!(
        prettify_pinyin(&ascii),
        "<span class=\"tone3\">nǐ</span> <span class=\"tone3\">hǎo</span> <span class=\"tone5\">ma</span>"
    );
}
