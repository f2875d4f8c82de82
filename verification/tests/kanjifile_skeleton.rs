use jadata::input::jmdict::{Entry, JMdict, KEle, REle};
use jadata::input::kanjidic2::{Character, Header as Kd2Header, Kanjidic2};
use jadata::kanjifile::{Header, Kanji, Kanjifile};
use jadata::output::kanjifile_skeleton::{create, is_kanji, not_in_dictionary, update, Error};

fn kd2(version: &str, literals: &[&str]) -> Kanjidic2 {
    Kanjidic2 {
        header: Kd2Header { file_version: version.to_string() },
        character: literals
            .iter()
            .map(|l| Character { literal: l.to_string(), reading_meaning: None })
            .collect(),
    }
}

fn jmdict(kebs: &[&str]) -> JMdict {
    JMdict {
        entry: kebs
            .iter()
            .enumerate()
            .map(|(i, keb)| Entry {
                ent_seq: format!("{}", 1000 + i),
                k_ele: vec![KEle { keb: keb.to_string(), ke_inf: vec![] }],
                r_ele: vec![REle { reb: "よみ".to_string(), re_restr: vec![] }],
                sense: vec![],
            })
            .collect(),
    }
}

fn bare(id: u16, kanji: &str) -> Kanji {
    Kanji {
        id,
        kanji: kanji.to_string(),
        components: vec![],
        name: None,
        meanings: vec![],
        similar: vec![],
    }
}

#[test]
fn is_kanji_accepts_the_basic_block() {
    assert!(is_kanji('一'));
    assert!(is_kanji('人'));
    assert!(is_kanji('\u{4E00}'));
    assert!(is_kanji('\u{9FFE}'));
}

#[test]
fn is_kanji_takes_the_first_and_the_last_of_each_block() {
    for (first, last) in [
        ('\u{4E00}', '\u{9FFF}'),
        ('\u{20000}', '\u{2A6DF}'),
        ('\u{2A700}', '\u{2B73F}'),
        ('\u{2B740}', '\u{2B81F}'),
        ('\u{2B820}', '\u{2CEAF}'),
        ('\u{2CEB0}', '\u{2EBEF}'),
        ('\u{30000}', '\u{3134F}'),
        ('\u{31350}', '\u{323AF}'),
    ] {
        assert!(is_kanji(first), "{first:?}");
        assert!(is_kanji(last), "{last:?}");
    }
}

#[test]
fn is_kanji_stops_at_the_ends_of_the_blocks() {
    assert!(!is_kanji('\u{4DFF}'));
    assert!(!is_kanji('\u{A000}'));
    assert!(!is_kanji('\u{1FFFF}'));
    assert!(!is_kanji('\u{2A6E0}'));
    assert!(!is_kanji('\u{2A6FF}'));
    assert!(!is_kanji('\u{2EBF0}'));
    assert!(!is_kanji('\u{2FFFF}'));
    assert!(!is_kanji('\u{323B0}'));
}

#[test]
fn create_finds_the_last_kanji_of_a_block_in_a_written_form() {
    let kf = create(kd2("v", &[]), jmdict(&["\u{9FFF}の\u{2A6DF}"])).unwrap();
    assert_eq!(kf.kanji, vec![bare(1, "\u{9FFF}"), bare(2, "\u{2A6DF}")]);
}

#[test]
fn is_kanji_accepts_the_extensions() {
    assert!(is_kanji('\u{20000}'));
    assert!(is_kanji('\u{2A700}'));
    assert!(is_kanji('\u{2B740}'));
    assert!(is_kanji('\u{2B820}'));
    assert!(is_kanji('\u{2CEB0}'));
    assert!(is_kanji('\u{30000}'));
    assert!(is_kanji('\u{31350}'));
    assert!(is_kanji('\u{323AE}'));
}

#[test]
fn is_kanji_rejects_kana_and_latin() {
    assert!(!is_kanji('あ'));
    assert!(!is_kanji('ア'));
    assert!(!is_kanji('a'));
    assert!(!is_kanji('々'));
}

#[test]
fn create_lists_kanji_of_both_dictionaries_in_order() {
    let kf = create(kd2("2024-01", &["人", "一"]), jmdict(&["食べる", "人々"])).unwrap();
    assert_eq!(kf.header.version, "");
    assert_eq!(kf.header.kanjidic2_version, "2024-01");
    assert_eq!(kf.kanji, vec![bare(1, "一"), bare(2, "人"), bare(3, "食")]);
}

#[test]
fn create_from_nothing_is_empty() {
    let kf = create(kd2("v", &[]), JMdict { entry: vec![] }).unwrap();
    assert!(kf.kanji.is_empty());
    assert_eq!(kf.header.kanjidic2_version, "v");
}

#[test]
fn create_lists_a_repeated_literal_once() {
    let kf = create(kd2("v", &["人", "人", "一", "人"]), jmdict(&["人人"])).unwrap();
    assert_eq!(kf.kanji, vec![bare(1, "一"), bare(2, "人")]);
}

#[test]
fn update_keeps_entries_and_continues_ids() {
    let mut curated = bare(7, "人");
    curated.name = Some("person".to_string());
    curated.similar = vec!["入".to_string()];
    let mut kf = Kanjifile {
        header: Header { version: "1.0".to_string(), kanjidic2_version: "old".to_string() },
        kanji: vec![bare(3, "一"), curated.clone()],
    };
    update(&mut kf, kd2("new", &["人", "二", "七"]), jmdict(&["一人", "食う"])).unwrap();
    assert_eq!(kf.header.version, "1.0");
    assert_eq!(kf.header.kanjidic2_version, "new");
    assert_eq!(
        kf.kanji,
        vec![bare(3, "一"), curated, bare(8, "七"), bare(9, "二"), bare(10, "食")]
    );
}

#[test]
fn update_with_more_upstream_changes_no_id() {
    let mut kf = create(kd2("a", &["三", "一"]), jmdict(&[])).unwrap();
    let first = kf.clone();
    update(&mut kf, kd2("b", &["三", "一", "二"]), jmdict(&["十"])).unwrap();
    assert_eq!(&kf.kanji[..2], &first.kanji[..]);
    let max = first.kanji.iter().map(|k| k.id).max().unwrap();
    assert!(kf.kanji[2..].iter().all(|k| k.id > max));
    assert_eq!(kf.kanji[2..], [bare(3, "二"), bare(4, "十")]);
}

#[test]
fn update_with_nothing_new_adds_nothing() {
    let mut kf = create(kd2("a", &["三", "一"]), jmdict(&["一三"])).unwrap();
    let first = kf.clone();
    update(&mut kf, kd2("a", &["三", "一"]), jmdict(&["一三"])).unwrap();
    assert_eq!(kf, first);
}

#[test]
fn update_keeps_ids_and_literals_unique() {
    let mut kf = create(kd2("a", &["三", "一", "三"]), jmdict(&["一二三"])).unwrap();
    update(&mut kf, kd2("b", &["四", "一"]), jmdict(&["五四三"])).unwrap();
    for i in 0..kf.kanji.len() {
        for j in i + 1..kf.kanji.len() {
            assert_ne!(kf.kanji[i].id, kf.kanji[j].id);
            assert_ne!(kf.kanji[i].kanji, kf.kanji[j].kanji);
        }
    }
    assert_eq!(kf.kanji.len(), 5);
}

#[test]
fn update_without_ids_left_changes_nothing() {
    let mut kf = Kanjifile {
        header: Header { version: "1".to_string(), kanjidic2_version: "old".to_string() },
        kanji: vec![bare(u16::MAX, "一")],
    };
    let before = kf.clone();
    assert_eq!(update(&mut kf, kd2("new", &["二"]), jmdict(&[])), Err(Error::OutOfIds));
    assert_eq!(kf, before);
}

#[test]
fn update_uses_the_last_id() {
    let mut kf = Kanjifile {
        header: Header { version: "1".to_string(), kanjidic2_version: "old".to_string() },
        kanji: vec![bare(u16::MAX - 1, "一")],
    };
    update(&mut kf, kd2("new", &["二"]), jmdict(&[])).unwrap();
    assert_eq!(kf.kanji[1], bare(u16::MAX, "二"));
}

#[test]
fn update_takes_the_literal_of_the_dictionary_as_it_is() {
    let kf = create(kd2("v", &["ab", "人"]), jmdict(&[])).unwrap();
    assert_eq!(kf.kanji, vec![bare(1, "ab"), bare(2, "人")]);
}

#[test]
fn update_finds_kanji_beyond_the_basic_plane() {
    let kf = create(kd2("v", &[]), jmdict(&["\u{20000}る"])).unwrap();
    assert_eq!(kf.kanji, vec![bare(1, "\u{20000}")]);
}

#[test]
fn not_in_dictionary_lists_what_only_words_have_shown() {
    let dictionary = kd2("b", &["三", "一", "二"]);
    let mut kf = create(kd2("a", &["三", "一"]), jmdict(&[])).unwrap();
    let held = kf.kanji.len();
    update(&mut kf, dictionary.clone(), jmdict(&["十二月", "七"])).unwrap();
    assert_eq!(not_in_dictionary(&kf.kanji, held, &dictionary), vec!["七", "十", "月"]);
    assert!(not_in_dictionary(&kf.kanji, kf.kanji.len(), &dictionary).is_empty());
    assert!(not_in_dictionary(&kf.kanji, kf.kanji.len() + 3, &dictionary).is_empty());
    assert_eq!(not_in_dictionary(&kf.kanji, 0, &kd2("c", &[])).len(), kf.kanji.len());
}

#[test]
fn create_kanji_handles_a_large_dictionary() {
    let literals: Vec<String> =
        (0x4E00u32..0x4E00 + 15_000).rev().map(|c| char::from_u32(c).unwrap().to_string()).collect();
    let refs: Vec<&str> = literals.iter().map(|l| l.as_str()).collect();
    let words: Vec<String> = (0x5000u32..0x5000 + 10_000)
        .map(|c| format!("{}の{}", char::from_u32(c).unwrap(), char::from_u32(c + 0x3000).unwrap()))
        .collect();
    let word_refs: Vec<&str> = words.iter().map(|l| l.as_str()).collect();
    let mut kf = create(kd2("v", &refs), jmdict(&word_refs)).unwrap();
    assert!(kf.kanji.windows(2).all(|p| p[0].kanji < p[1].kanji && p[0].id + 1 == p[1].id));
    assert_eq!(kf.kanji[0], bare(1, "一"));
    let before = kf.clone();
    update(&mut kf, kd2("v", &refs), jmdict(&word_refs)).unwrap();
    assert_eq!(kf, before);
}
