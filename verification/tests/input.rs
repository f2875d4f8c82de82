use jadata::input::jmdict::{revision, revision_in};
use jadata::input::kradfile::Decomposition;
use jadata::text::find_first;
use jadata::input::kanjidic2::{Classified, Position, Reading, ReadingKind};

fn reading(r_type: &str, value: &str) -> Reading {
    Reading { r_type: r_type.to_string(), value: value.to_string() }
}

fn classified(
    kind: ReadingKind,
    reading: &str,
    okurigana: Option<&str>,
    position: Option<Position>,
) -> Option<Classified> {
    Some(Classified {
        kind,
        reading: reading.to_string(),
        okurigana: okurigana.map(|o| o.to_string()),
        position,
    })
}

#[test]
fn classify_maps_the_type_tag() {
    assert_eq!(
        reading("ja_on", "ジン").classify(),
        classified(ReadingKind::Onyomi, "ジン", None, None)
    );
    assert_eq!(
        reading("ja_kun", "ひと").classify(),
        classified(ReadingKind::Kunyomi, "ひと", None, None)
    );
}

#[test]
fn classify_discards_other_tags() {
    assert_eq!(reading("pinyin", "ren2").classify(), None);
    assert_eq!(reading("korean_r", "in").classify(), None);
    assert_eq!(reading("", "ひと").classify(), None);
    assert_eq!(reading("ja_on ", "ジン").classify(), None);
}

#[test]
fn classify_parts_the_okurigana_at_the_first_dot() {
    assert_eq!(
        reading("ja_kun", "た.べる").classify(),
        classified(ReadingKind::Kunyomi, "た", Some("べる"), None)
    );
    assert_eq!(
        reading("ja_kun", "あ.が.る").classify(),
        classified(ReadingKind::Kunyomi, "あ", Some("が.る"), None)
    );
    assert_eq!(
        reading("ja_kun", "たべ.").classify(),
        classified(ReadingKind::Kunyomi, "たべ", Some(""), None)
    );
}

#[test]
fn classify_reads_the_hyphens() {
    assert_eq!(
        reading("ja_kun", "-びと").classify(),
        classified(ReadingKind::Kunyomi, "びと", None, Some(Position::Suffix))
    );
    assert_eq!(
        reading("ja_kun", "お-").classify(),
        classified(ReadingKind::Kunyomi, "お", None, Some(Position::Prefix))
    );
    assert_eq!(
        reading("ja_kun", "-づ.け").classify(),
        classified(ReadingKind::Kunyomi, "づ", Some("け"), Some(Position::Suffix))
    );
    assert_eq!(
        reading("ja_kun", "-あ-").classify(),
        classified(ReadingKind::Kunyomi, "あ", None, Some(Position::Suffix))
    );
}

#[test]
fn classify_takes_an_empty_reading() {
    assert_eq!(reading("ja_on", "").classify(), classified(ReadingKind::Onyomi, "", None, None));
    assert_eq!(
        reading("ja_on", "-").classify(),
        classified(ReadingKind::Onyomi, "", None, Some(Position::Suffix))
    );
}

#[test]
fn find_first_finds_the_first_place() {
    let line: Vec<char> = "abcabc".chars().collect();
    let find = |part: &str| find_first(&line, &part.chars().collect());
    assert_eq!(find("abc"), Some(0));
    assert_eq!(find("bc"), Some(1));
    assert_eq!(find("ca"), Some(2));
    assert_eq!(find("cb"), None);
    assert_eq!(find(""), Some(0));
    assert_eq!(find("abcabcd"), None);
    assert_eq!(find_first(&vec![], &vec![]), Some(0));
}

#[test]
fn revision_in_takes_the_rest_of_the_line() {
    assert_eq!(revision_in("<!-- Rev 1.09"), Some("1.09".to_string()));
    assert_eq!(revision_in("日本語 <!-- Rev 2.1 --> <!-- Rev 3"), Some("2.1 --> <!-- Rev 3".to_string()));
    assert_eq!(revision_in("<!-- Rev "), Some("".to_string()));
    assert_eq!(revision_in("<!-- Rev"), None);
    assert_eq!(revision_in("<!-- rev 1.09"), None);
    assert_eq!(revision_in(""), None);
}

#[test]
fn revision_reads_the_ten_leading_lines() {
    let mut lines: Vec<String> = vec!["<?xml version=\"1.0\"?>".to_string(); 9];
    lines.push("<!-- Rev 1.10".to_string());
    lines.push("<!-- Rev 1.11".to_string());
    assert_eq!(revision(&lines), Some("1.10".to_string()));
    lines.insert(0, "<!DOCTYPE JMdict [".to_string());
    assert_eq!(revision(&lines), None);
    assert_eq!(revision(&vec![]), None);
    lines[3] = "x<!-- Rev a".to_string();
    lines[5] = "<!-- Rev b".to_string();
    assert_eq!(revision(&lines), Some("a".to_string()));
}

fn decomposition(kanji: &str, components: &[&str]) -> Option<Decomposition> {
    Some(Decomposition {
        kanji: kanji.to_string(),
        components: components.iter().map(|c| c.to_string()).collect(),
    })
}

#[test]
fn parse_reads_a_kanji_and_its_components() {
    assert_eq!(Decomposition::parse("亜 : ｜ 一 口"), decomposition("亜", &["｜", "一", "口"]));
    assert_eq!(Decomposition::parse("一 : 一"), decomposition("一", &["一"]));
    assert_eq!(Decomposition::parse("休 :  亻   木 "), decomposition("休", &["亻", "木"]));
    assert_eq!(Decomposition::parse("休 : "), decomposition("休", &[]));
    assert_eq!(Decomposition::parse(" : 木"), decomposition("", &["木"]));
    assert_eq!(Decomposition::parse("甲 : 乙 : 丙"), decomposition("甲", &["乙", ":", "丙"]));
}

#[test]
fn parse_skips_comments_and_other_lines() {
    assert_eq!(Decomposition::parse("# 亜 : ｜ 一 口"), None);
    assert_eq!(Decomposition::parse("#"), None);
    assert_eq!(Decomposition::parse(""), None);
    assert_eq!(Decomposition::parse("亜: ｜ 一 口"), None);
    assert_eq!(Decomposition::parse("亜 ｜ 一 口"), None);
}
