use jadata::input::kanjidic2::{
    Character, Header as Kd2Header, Kanjidic2, Meaning, Reading, ReadingMeaning, RmGroup,
};
use jadata::input::kradfile::{Decomposition, Kradfile};
use jadata::kanjifile::{Header, Kanji, Kanjifile};
use jadata::output::kanjifile::{fill_in_kanji, fill_skeleton, handle_meanings, Error};

fn meaning(value: &str, lang: Option<&str>) -> Meaning {
    Meaning { m_lang: lang.map(|l| l.to_string()), value: value.to_string() }
}

fn character(literal: &str, meanings: Vec<Meaning>) -> Character {
    Character {
        literal: literal.to_string(),
        reading_meaning: Some(ReadingMeaning {
            rmgroup: vec![RmGroup { reading: vec![], meaning: meanings }],
        }),
    }
}

fn kd2(characters: Vec<Character>) -> Kanjidic2 {
    Kanjidic2 { header: Kd2Header { file_version: "4".to_string() }, character: characters }
}

fn no_components() -> Kradfile {
    Kradfile { kanji_to_components: vec![] }
}

fn bare(id: u16, kanji: &str) -> Kanji {
    Kanji {
        id,
        kanji: kanji.to_string(),
        components: vec![],
        name: None,
        meanings: vec![],
        similar: vec![],
    }
}

fn skeleton(kanji: Vec<Kanji>) -> Kanjifile {
    Kanjifile {
        header: Header { version: "0".to_string(), kanjidic2_version: "0".to_string() },
        kanji,
    }
}

fn texts(v: &[&str]) -> Vec<String> {
    v.iter().map(|s| s.to_string()).collect()
}

#[test]
fn fill_gives_meanings_and_a_name() {
    let person = Character {
        literal: "人".to_string(),
        reading_meaning: Some(ReadingMeaning {
            rmgroup: vec![RmGroup {
                reading: vec![
                    Reading { r_type: "ja_on".to_string(), value: "ジン".to_string() },
                    Reading { r_type: "ja_kun".to_string(), value: "ひと".to_string() },
                ],
                meaning: vec![meaning("person", None)],
            }],
        }),
    };
    let mut kf = skeleton(vec![bare(1, "人")]);
    fill_skeleton(&mut kf, "1.2".to_string(), kd2(vec![person]), no_components()).unwrap();
    assert_eq!(kf.header.version, "1.2");
    assert_eq!(kf.header.kanjidic2_version, "4");
    let mut expected = bare(1, "人");
    expected.meanings = texts(&["person"]);
    expected.name = Some("person".to_string());
    assert_eq!(kf.kanji, vec![expected]);
}

#[test]
fn fill_sorts_the_untagged_meanings() {
    let c = character(
        "水",
        vec![
            meaning("water", None),
            meaning("eau", Some("fr")),
            meaning("Water", None),
            meaning("fluid", None),
            meaning("fluid", None),
            meaning("agua", Some("es")),
        ],
    );
    let mut kf = skeleton(vec![bare(1, "水")]);
    fill_skeleton(&mut kf, "1".to_string(), kd2(vec![c]), no_components()).unwrap();
    assert_eq!(kf.kanji[0].meanings, texts(&["Water", "fluid", "fluid", "water"]));
    assert_eq!(kf.kanji[0].name, Some("Water".to_string()));
}

#[test]
fn fill_gathers_the_meanings_of_all_groups() {
    let c = Character {
        literal: "行".to_string(),
        reading_meaning: Some(ReadingMeaning {
            rmgroup: vec![
                RmGroup { reading: vec![], meaning: vec![meaning("going", None)] },
                RmGroup {
                    reading: vec![],
                    meaning: vec![meaning("bank", None), meaning("aller", Some("fr"))],
                },
            ],
        }),
    };
    let mut kf = skeleton(vec![bare(1, "行")]);
    fill_skeleton(&mut kf, "1".to_string(), kd2(vec![c]), no_components()).unwrap();
    assert_eq!(kf.kanji[0].meanings, texts(&["bank", "going"]));
}

#[test]
fn fill_never_overwrites_a_name() {
    let mut entry = bare(1, "人");
    entry.name = Some("human".to_string());
    let mut kf = skeleton(vec![entry]);
    let c = character("人", vec![meaning("person", None)]);
    fill_skeleton(&mut kf, "1".to_string(), kd2(vec![c]), no_components()).unwrap();
    assert_eq!(kf.kanji[0].name, Some("human".to_string()));
    assert_eq!(kf.kanji[0].meanings, texts(&["person"]));
}

#[test]
fn fill_leaves_the_name_unset_without_meanings() {
    let mut kf = skeleton(vec![bare(1, "人")]);
    let c = Character { literal: "人".to_string(), reading_meaning: None };
    fill_skeleton(&mut kf, "1".to_string(), kd2(vec![c]), no_components()).unwrap();
    assert_eq!(kf.kanji[0].name, None);
    assert!(kf.kanji[0].meanings.is_empty());
}

#[test]
fn fill_takes_the_components_of_the_first_decomposition() {
    let kf_in = Kradfile {
        kanji_to_components: vec![
            Decomposition { kanji: "休".to_string(), components: texts(&["亻", "木"]) },
            Decomposition { kanji: "休".to_string(), components: texts(&["木"]) },
        ],
    };
    let mut with_old = bare(2, "人");
    with_old.components = texts(&["丿"]);
    let mut kf = skeleton(vec![bare(1, "休"), with_old]);
    let records = vec![character("休", vec![]), character("人", vec![])];
    fill_skeleton(&mut kf, "1".to_string(), kd2(records), kf_in).unwrap();
    assert_eq!(kf.kanji[0].components, texts(&["亻", "木"]));
    assert!(kf.kanji[1].components.is_empty());
}

#[test]
fn fill_leaves_entries_without_a_record_alone() {
    let mut other = bare(2, "入");
    other.meanings = texts(&["enter"]);
    other.similar = texts(&["人"]);
    let mut kf = skeleton(vec![bare(1, "人"), other.clone()]);
    let c = character("人", vec![meaning("person", None)]);
    fill_skeleton(&mut kf, "1".to_string(), kd2(vec![c]), no_components()).unwrap();
    assert_eq!(kf.kanji[1], other);
}

#[test]
fn fill_twice_changes_nothing_more() {
    let records = vec![
        character("人", vec![meaning("person", None), meaning("human", None)]),
        character("一", vec![]),
    ];
    let krad = Kradfile {
        kanji_to_components: vec![Decomposition {
            kanji: "人".to_string(),
            components: texts(&["人"]),
        }],
    };
    let mut kf = skeleton(vec![bare(1, "一"), bare(2, "人")]);
    fill_skeleton(&mut kf, "1".to_string(), kd2(records.clone()), krad.clone()).unwrap();
    let once = kf.clone();
    fill_skeleton(&mut kf, "1".to_string(), kd2(records), krad).unwrap();
    assert_eq!(kf, once);
}

#[test]
fn fill_keeps_ids_and_literals() {
    let mut kf = skeleton(vec![bare(5, "一"), bare(9, "人")]);
    let records = vec![character("人", vec![meaning("person", None)]), character("一", vec![])];
    fill_skeleton(&mut kf, "1".to_string(), kd2(records), no_components()).unwrap();
    let ids: Vec<(u16, &str)> = kf.kanji.iter().map(|k| (k.id, k.kanji.as_str())).collect();
    assert_eq!(ids, vec![(5, "一"), (9, "人")]);
}

#[test]
fn fill_fails_without_a_skeleton_entry() {
    let mut kf = skeleton(vec![bare(1, "人")]);
    let before = kf.clone();
    let records = vec![character("人", vec![meaning("person", None)]), character("一", vec![])];
    let r = fill_skeleton(&mut kf, "1".to_string(), kd2(records), no_components());
    assert_eq!(r, Err(Error::NoSkeleton { record: 1 }));
    assert_eq!(kf, before);
}

#[test]
fn fill_fails_on_a_literal_of_two_characters() {
    let mut kf = skeleton(vec![bare(1, "人人")]);
    let before = kf.clone();
    let r = fill_skeleton(
        &mut kf,
        "1".to_string(),
        kd2(vec![character("人人", vec![])]),
        no_components(),
    );
    assert_eq!(r, Err(Error::MultiCodepoint { record: 0 }));
    assert_eq!(kf, before);
}

#[test]
fn fill_fails_on_a_repeated_literal() {
    let mut kf = skeleton(vec![bare(1, "人"), bare(2, "一")]);
    let before = kf.clone();
    let records = vec![character("人", vec![]), character("一", vec![]), character("人", vec![])];
    let r = fill_skeleton(&mut kf, "1".to_string(), kd2(records), no_components());
    assert_eq!(r, Err(Error::RepeatedKanji { record: 2 }));
    assert_eq!(kf, before);
}

#[test]
fn fill_fails_on_a_repeated_id() {
    let mut kf = skeleton(vec![bare(1, "人"), bare(1, "一")]);
    let before = kf.clone();
    let records = vec![character("人", vec![]), character("一", vec![])];
    let r = fill_skeleton(&mut kf, "1".to_string(), kd2(records), no_components());
    assert_eq!(r, Err(Error::RepeatedId { record: 1 }));
    assert_eq!(kf, before);
}

#[test]
fn fill_reports_the_first_fault() {
    let mut kf = skeleton(vec![bare(1, "人")]);
    let records = vec![character("ab", vec![]), character("人", vec![]), character("人", vec![])];
    let r = fill_skeleton(&mut kf, "1".to_string(), kd2(records), no_components());
    assert_eq!(r, Err(Error::NoSkeleton { record: 0 }));
}

#[test]
fn fill_uses_the_last_entry_of_a_literal() {
    let mut kf = skeleton(vec![bare(1, "人"), bare(2, "人")]);
    let records = vec![character("人", vec![meaning("person", None)])];
    fill_skeleton(&mut kf, "1".to_string(), kd2(records), no_components()).unwrap();
    assert!(kf.kanji[0].meanings.is_empty());
    assert_eq!(kf.kanji[1].meanings, texts(&["person"]));
}

#[test]
fn handle_meanings_keeps_the_untagged_in_order() {
    let found = handle_meanings(&vec![
        meaning("b", None),
        meaning("x", Some("fr")),
        meaning("a", None),
    ]);
    assert_eq!(found, texts(&["b", "a"]));
}

#[test]
fn fill_in_kanji_fills_one_entry() {
    let mut entry = bare(3, "人");
    entry.similar = texts(&["入"]);
    let record = character("人", vec![meaning("person", None), meaning("human", None)]);
    let krad =
        vec![Decomposition { kanji: "人".to_string(), components: texts(&["丿", "乀"]) }];
    fill_in_kanji(&record, &mut entry, &krad);
    assert_eq!(
        entry,
        Kanji {
            id: 3,
            kanji: "人".to_string(),
            components: texts(&["丿", "乀"]),
            name: Some("human".to_string()),
            meanings: texts(&["human", "person"]),
            similar: texts(&["入"]),
        }
    );
}

#[test]
fn fill_kanji_handles_a_large_dictionary() {
    let literals: Vec<String> =
        (0x4E00u32..0x4E00 + 15_000).map(|c| char::from_u32(c).unwrap().to_string()).collect();
    let entries: Vec<Kanji> =
        literals.iter().rev().enumerate().map(|(i, l)| bare(i as u16 + 1, l)).collect();
    let records: Vec<Character> =
        literals.iter().map(|l| character(l, vec![meaning("b", None), meaning("a", None)])).collect();
    let krad = Kradfile {
        kanji_to_components: literals
            .iter()
            .map(|l| Decomposition { kanji: l.clone(), components: vec![l.clone()] })
            .collect(),
    };
    let mut kf = skeleton(entries);
    fill_skeleton(&mut kf, "1".to_string(), kd2(records), krad).unwrap();
    assert!(kf.kanji.iter().all(|k| k.meanings == texts(&["a", "b"])
        && k.name == Some("a".to_string())
        && k.components == vec![k.kanji.clone()]));
}
