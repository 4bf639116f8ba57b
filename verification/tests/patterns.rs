use chinese_notes::cedict::parse_entry;
use chinese_notes::hanping::parse_line;
use chinese_notes::hsk::get_hsk_words;
use chinese_notes::pinyin::{pinyin_to_ascii, prettify_pinyin};
use chinese_notes::preferred_entry::is_good;
use regex::Regex;

/// Every text of up to `max` characters over the given alphabet.
fn texts(alphabet: &[char], max: usize) -> Vec<String> {
    let mut all = vec![String::new()];
    let mut last = vec![String::new()];
    for _ in 0..max {
        let mut next = Vec::new();
        for t in &last {
            for c in alphabet {
                let mut longer = t.clone();
                longer.push(*c);
                next.push(longer);
            }
        }
        all.extend(next.iter().cloned());
        last = next;
    }
    all
}

#[test]
fn entry_fields_agree_with_the_pattern() {
    let pattern = Regex::new(r"(.+?) (.+?) \[(.+?)\] /(.+)/").unwrap();
    let mut parsed = 0;
    for mid in texts(&['a', ' ', '[', ']', '/', '\n'], 6) {
        for line in [format!("a b{}/", mid), format!("{} [a] /a/", mid), mid.clone()] {
            let entry = parse_entry(&line);
            match pattern.captures(&line) {
                Some(caps) => {
                    let entry = entry.unwrap();
                    assert_eq!(entry.trad, &caps[1], "{:?}", line);
                    assert_eq!(entry.simp, &caps[2], "{:?}", line);
                    assert_eq!(entry.pinyin, &caps[3], "{:?}", line);
                    let glosses: Vec<&str> = caps[4].split('/').collect();
                    assert_eq!(entry.defs, glosses, "{:?}", line);
                    parsed += 1;
                }
                None => assert!(entry.is_none(), "{:?}", line),
            }
        }
    }
    assert!(parsed > 1000);
}

#[test]
fn classifiers_agree_with_the_pattern() {
    let pattern = Regex::new(r"([^\[\|]+)(?:\|([^\[]+))?\[(.+)\]").unwrap();
    let mut parsed = 0;
    for piece in texts(&['a', 'b', '[', ']', '|'], 7) {
        let line = format!("x y [p] /g/CL:{}/", piece);
        let entry = parse_entry(&line).unwrap();
        match pattern.captures(&piece) {
            Some(caps) => {
                assert_eq!(entry.clfrs.len(), 1, "{:?}", piece);
                let c = &entry.clfrs[0];
                assert_eq!(c.trad, &caps[1], "{:?}", piece);
                assert_eq!(c.simp, caps.get(2).map_or(&caps[1], |m| m.as_str()), "{:?}", piece);
                assert_eq!(c.pinyin, &caps[3], "{:?}", piece);
                parsed += 1;
            }
            None => assert!(entry.clfrs.is_empty(), "{:?}", piece),
        }
    }
    assert!(parsed > 1000);
}

#[test]
fn taiwan_glosses_agree_with_the_pattern() {
    let pattern = Regex::new(r"^Taiwan pr\. \[([a-zA-Z0-9: ]+)\]$").unwrap();
    let mut parsed = 0;
    for tail in texts(&['a', 'Z', '4', ':', ' ', '[', ']', 'é'], 5) {
        let gloss = format!("Taiwan pr. {}", tail);
        let entry = parse_entry(&format!("x y [p] /g/{}/", gloss)).unwrap();
        match pattern.captures(&gloss) {
            Some(caps) => {
                assert_eq!(entry.tw_pinyin, &caps[1], "{:?}", gloss);
                assert_eq!(entry.defs, vec!["g".to_string()], "{:?}", gloss);
                parsed += 1;
            }
            None => {
                assert_eq!(entry.tw_pinyin, "", "{:?}", gloss);
                assert_eq!(entry.defs, vec!["g".to_string(), gloss.clone()], "{:?}", gloss);
            }
        }
    }
    assert!(parsed > 100);
}

#[test]
fn word_list_lines_agree_with_the_pattern() {
    let pattern = Regex::new(r"^(.+?)(?: \[(.+?)\])? +(.+)$").unwrap();
    let mut parsed = 0;
    for line in texts(&['a', 'é', ' ', '[', ']', '-', '\n'], 6) {
        let got = parse_line(&line);
        match pattern.captures(&line) {
            Some(caps) => {
                let got = got.unwrap();
                let trad = &caps[1];
                assert_eq!(got.trad, trad, "{:?}", line);
                let simp: String = match caps.get(2) {
                    Some(dashed) => dashed
                        .as_str()
                        .chars()
                        .zip(trad.chars())
                        .map(|(s, t)| if s != '-' { s } else { t })
                        .collect(),
                    None => trad.to_string(),
                };
                assert_eq!(got.simp, simp, "{:?}", line);
                let syllables: Vec<&str> = caps[3].split(' ').collect();
                let wanted = trad.chars().count().min(syllables.len());
                assert_eq!(got.pinyin, pinyin_to_ascii(&syllables[..wanted].join(" ")), "{:?}", line);
                parsed += 1;
            }
            None => assert!(got.is_err(), "{:?}", line),
        }
    }
    assert!(parsed > 1000);
}

#[test]
fn hsk_rows_agree_with_the_pattern() {
    let pattern = Regex::new(r"(.+?),(.*?),(\d)\n").unwrap();
    let mut parsed = 0;
    for row in texts(&['a', ',', '3', 'x'], 8) {
        if row.is_empty() {
            continue;
        }
        let got = get_hsk_words(&row);
        match pattern.captures(&format!("{}\n", row)) {
            Some(caps) => {
                let words = got.unwrap();
                assert_eq!(words.len(), 1, "{:?}", row);
                assert_eq!(words[0].simp, &caps[1], "{:?}", row);
                assert_eq!(words[0].part_of_speech, &caps[2], "{:?}", row);
                assert_eq!(words[0].level.to_string(), &caps[3], "{:?}", row);
                parsed += 1;
            }
            None => assert!(got.is_err(), "{:?}", row),
        }
    }
    assert!(parsed > 1000);
}

#[test]
fn references_agree_with_the_pattern() {
    let pattern = Regex::new(r"^variant of |^old variant of |^see [^ ]+\[[^\]]+\]$").unwrap();
    let mut references = 0;
    let mut glosses = texts(&['a', ' ', '[', ']'], 7);
    glosses.extend(texts(&['a', ' ', '[', ']'], 7).iter().map(|t| format!("see {}", t)));
    glosses.extend(
        ["variant of ", "variant of", "a variant of ", "old variant of x", " old variant of x"]
            .iter()
            .map(|t| t.to_string()),
    );
    for gloss in glosses {
        if gloss.is_empty() || gloss.contains('/') {
            continue;
        }
        let entry = parse_entry(&format!("x y [p] /{}/", gloss)).unwrap();
        assert_eq!(is_good(&entry), !pattern.is_match(&gloss), "{:?}", gloss);
        if pattern.is_match(&gloss) {
            references += 1;
        }
    }
    assert!(references > 100);
}

#[test]
fn marks_come_back_where_they_stood() {
    let syllables = [
        ("mā", 1), ("bái", 2), ("hǎo", 3), ("gěi", 3), ("yuè", 4), ("liú", 2), ("guì", 4),
        ("xióng", 2), ("nǚ", 3), ("lüè", 4), ("ér", 2), ("jiǒng", 3), ("chuāng", 1), ("què", 4),
        ("duō", 1), ("shuǐ", 3), ("zhōu", 1), ("qiú", 2), ("xiǎo", 3), ("kuài", 4), ("wèi", 4),
        ("yǔ", 3), ("lǜ", 4), ("nüè", 4), ("ǒu", 3), ("ài", 4), ("èr", 4), ("yī", 1), ("wǔ", 3),
        ("bīng", 1), ("lóng", 2), ("juǎn", 3), ("xuě", 3), ("miàn", 4), ("tiē", 1), ("guó", 2),
        ("zhuāng", 1), ("lǘ", 2), ("ō", 1),
    ];
    for (syllable, tone) in syllables {
        let ascii = pinyin_to_ascii(syllable);
        assert!(ascii.is_ascii(), "{:?}", ascii);
        assert!(ascii.ends_with(&tone.to_string()), "{:?}", ascii);
        assert_eq!(
            prettify_pinyin(&ascii),
            format!("<span class=\"tone{}\">{}</span>", tone, syllable)
        );
    }
    let whole: Vec<&str> = syllables.iter().map(|s| s.0).collect();
    let shown: Vec<String> = syllables
        .iter()
        .map(|s| format!("<span class=\"tone{}\">{}</span>", s.1, s.0))
        .collect();
    assert_eq!(prettify_pinyin(&pinyin_to_ascii(&whole.join(" "))), shown.join(" "));
}
