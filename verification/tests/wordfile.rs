use jadata::input::jmdict::{Entry, Gloss, JMdict, KEle, REle, Sense};
use jadata::input::jmdict_furigana::{Furigana as FuriganaRecord, Ruby};
use jadata::output::wordfile::{
    fill_skeleton, process_furigana, process_jmdict, process_jmdict_word, Error, FuriganaEntry,
    FuriganaIndex, JMdictWord,
};
use jadata::wordfile::{Furigana, Header, Reading, Word, Wordfile};

fn texts(v: &[&str]) -> Vec<String> {
    v.iter().map(|s| s.to_string()).collect()
}

fn gloss(value: &str, lang: Option<&str>) -> Gloss {
    Gloss { lang: lang.map(|l| l.to_string()), value: value.to_string() }
}

fn sense(glosses: &[&str]) -> Sense {
    Sense {
        stagk: vec![],
        stagr: vec![],
        misc: vec![],
        gloss: glosses.iter().map(|g| gloss(g, None)).collect(),
    }
}

fn kele(keb: &str) -> KEle {
    KEle { keb: keb.to_string(), ke_inf: vec![] }
}

fn rele(reb: &str) -> REle {
    REle { reb: reb.to_string(), re_restr: vec![] }
}

fn bare(id: u32, jmdict_id: u32, forms: &[&str]) -> Word {
    Word {
        id,
        jmdict_id: Some(jmdict_id),
        written_forms: texts(forms),
        meanings: vec![],
        readings: vec![],
    }
}

fn skeleton(words: Vec<Word>) -> Wordfile {
    Wordfile {
        header: Header { version: "3".to_string(), jmdict_version: "old".to_string() },
        words,
    }
}

fn ruby(text: &str, rt: Option<&str>) -> Ruby {
    Ruby { ruby: text.to_string(), rt: rt.map(|r| r.to_string()) }
}

fn span(start_idx: usize, end_idx: usize, furigana: &str) -> Furigana {
    Furigana { start_idx, end_idx, furigana: furigana.to_string() }
}

fn eat() -> Entry {
    Entry {
        ent_seq: "1000".to_string(),
        k_ele: vec![kele("食べる")],
        r_ele: vec![rele("たべる")],
        sense: vec![sense(&["to eat"])],
    }
}

#[test]
fn fill_gives_meanings_and_a_reading() {
    let mut wf = skeleton(vec![bare(1, 1000, &["食べる"])]);
    fill_skeleton(&mut wf, JMdict { entry: vec![eat()] }, "new".to_string(), vec![]).unwrap();
    assert_eq!(wf.header.version, "3");
    assert_eq!(wf.header.jmdict_version, "new");
    assert_eq!(wf.words.len(), 1);
    assert_eq!(wf.words[0].written_forms, texts(&["食べる"]));
    assert_eq!(wf.words[0].meanings, texts(&["to eat"]));
    assert_eq!(
        wf.words[0].readings,
        vec![Reading { reading: "たべる".to_string(), furigana: vec![], usually_kana: false }]
    );
}

#[test]
fn fill_looks_the_furigana_up() {
    let records = vec![
        FuriganaRecord {
            text: "食べる".to_string(),
            reading: "くべる".to_string(),
            furigana: vec![ruby("食", Some("く")), ruby("べる", None)],
        },
        FuriganaRecord {
            text: "食べる".to_string(),
            reading: "たべる".to_string(),
            furigana: vec![ruby("食", Some("た")), ruby("べる", None)],
        },
    ];
    let mut wf = skeleton(vec![bare(1, 1000, &["食べる"])]);
    fill_skeleton(&mut wf, JMdict { entry: vec![eat()] }, "new".to_string(), records).unwrap();
    assert_eq!(
        wf.words[0].readings,
        vec![Reading {
            reading: "たべる".to_string(),
            furigana: vec![span(0, 3, "た")],
            usually_kana: false
        }]
    );
}

#[test]
fn fill_adds_no_reading_to_a_word_in_kana() {
    let e = Entry {
        ent_seq: "5".to_string(),
        k_ele: vec![],
        r_ele: vec![rele("ああ")],
        sense: vec![sense(&["ah", "oh"])],
    };
    let mut wf = skeleton(vec![bare(1, 5, &["ああ"])]);
    fill_skeleton(&mut wf, JMdict { entry: vec![e] }, "new".to_string(), vec![]).unwrap();
    assert_eq!(wf.words[0].meanings, texts(&["ah", "oh"]));
    assert!(wf.words[0].readings.is_empty());
}

#[test]
fn fill_twice_leaves_a_word_in_kana_as_it_is() {
    let e = Entry {
        ent_seq: "5".to_string(),
        k_ele: vec![],
        r_ele: vec![rele("ああ")],
        sense: vec![sense(&["ah", "oh"])],
    };
    let mut wf = skeleton(vec![bare(1, 5, &["ああ"])]);
    fill_skeleton(&mut wf, JMdict { entry: vec![e.clone()] }, "new".to_string(), vec![]).unwrap();
    let once = wf.clone();
    fill_skeleton(&mut wf, JMdict { entry: vec![e] }, "new".to_string(), vec![]).unwrap();
    assert_eq!(wf, once);
}

#[test]
fn fill_from_the_same_skeleton_gives_the_same_wordfile() {
    let start = skeleton(vec![bare(1, 1000, &["食べる"])]);
    let mut a = start.clone();
    let mut b = start.clone();
    fill_skeleton(&mut a, JMdict { entry: vec![eat()] }, "new".to_string(), vec![]).unwrap();
    fill_skeleton(&mut b, JMdict { entry: vec![eat()] }, "new".to_string(), vec![]).unwrap();
    assert_eq!(a, b);
}

#[test]
fn fill_adds_a_reading_for_each_row() {
    let e = Entry {
        ent_seq: "7".to_string(),
        k_ele: vec![kele("明日")],
        r_ele: vec![rele("あした"), rele("あす")],
        sense: vec![sense(&["tomorrow"])],
    };
    let mut wf = skeleton(vec![bare(1, 7, &["明日"]), bare(2, 7, &["他"]), bare(3, 8, &["明日"])]);
    fill_skeleton(&mut wf, JMdict { entry: vec![e] }, "new".to_string(), vec![]).unwrap();
    let readings: Vec<&str> = wf.words[0].readings.iter().map(|r| r.reading.as_str()).collect();
    assert_eq!(readings, vec!["あした", "あす"]);
    assert_eq!(wf.words[1], bare(2, 7, &["他"]));
    assert_eq!(wf.words[2], bare(3, 8, &["明日"]));
}

#[test]
fn fill_keeps_ids_and_written_forms() {
    let mut wf = skeleton(vec![bare(4, 1000, &["食べる", "喰べる"])]);
    fill_skeleton(&mut wf, JMdict { entry: vec![eat()] }, "new".to_string(), vec![]).unwrap();
    assert_eq!(wf.words[0].id, 4);
    assert_eq!(wf.words[0].jmdict_id, Some(1000));
    assert_eq!(wf.words[0].written_forms, texts(&["食べる", "喰べる"]));
}

#[test]
fn fill_fails_without_a_word_for_the_entry() {
    let mut wf = skeleton(vec![bare(1, 999, &["食べる"])]);
    let before = wf.clone();
    let r = fill_skeleton(&mut wf, JMdict { entry: vec![eat()] }, "new".to_string(), vec![]);
    assert_eq!(r, Err(Error::MissingJmdictId { jmdict_id: 1000 }));
    assert_eq!(wf, before);
}

#[test]
fn fill_fails_on_a_sequence_number_that_is_no_number() {
    let mut wf = skeleton(vec![bare(1, 1000, &["食べる"])]);
    let before = wf.clone();
    let mut bad = eat();
    bad.ent_seq = "10o0".to_string();
    let r = fill_skeleton(&mut wf, JMdict { entry: vec![eat(), bad] }, "new".to_string(), vec![]);
    assert_eq!(r, Err(Error::InvalidId { entry: 1 }));
    assert_eq!(wf, before);
}

#[test]
fn fill_skips_words_that_lack_the_written_form() {
    let mut wf = skeleton(vec![bare(1, 1000, &["喰べる"])]);
    let before = wf.clone();
    fill_skeleton(&mut wf, JMdict { entry: vec![eat()] }, "old".to_string(), vec![]).unwrap();
    assert_eq!(wf, before);
}

#[test]
fn process_furigana_walks_the_segments() {
    let records = vec![FuriganaRecord {
        text: "大人買い".to_string(),
        reading: "おとながい".to_string(),
        furigana: vec![ruby("大人", Some("おとな")), ruby("買", Some("が")), ruby("い", None)],
    }];
    let index = process_furigana(&records).unwrap();
    assert_eq!(
        index.entries(),
        &vec![FuriganaEntry {
            text: "大人買い".to_string(),
            reading: "おとながい".to_string(),
            spans: vec![span(0, 6, "おとな"), span(6, 9, "が")],
        }]
    );
    assert_eq!(index.spans("大人買い", "おとながい"), vec![span(0, 6, "おとな"), span(6, 9, "が")]);
    assert!(index.spans("大人買い", "おとなかい").is_empty());
    assert!(index.spans("大人", "おとながい").is_empty());
}

#[test]
fn process_furigana_covers_a_fully_annotated_form() {
    let text = "日本語";
    let records = vec![FuriganaRecord {
        text: text.to_string(),
        reading: "にほんご".to_string(),
        furigana: vec![ruby("日", Some("に")), ruby("本", Some("ほん")), ruby("語", Some("ご"))],
    }];
    let index = process_furigana(&records).unwrap();
    let spans = &index.entries()[0].spans;
    assert_eq!(spans, &vec![span(0, 3, "に"), span(3, 6, "ほん"), span(6, 9, "ご")]);
    assert_eq!(spans.last().unwrap().end_idx, text.len());
    for pair in spans.windows(2) {
        assert!(pair[0].end_idx <= pair[1].start_idx);
    }
}

#[test]
fn process_furigana_skips_segments_without_annotation() {
    let records = vec![FuriganaRecord {
        text: "お茶".to_string(),
        reading: "おちゃ".to_string(),
        furigana: vec![ruby("お", None), ruby("茶", Some("ちゃ"))],
    }];
    assert_eq!(process_furigana(&records).unwrap().entries()[0].spans, vec![span(3, 6, "ちゃ")]);
    assert!(process_furigana(&vec![]).unwrap().entries().is_empty());
}

#[test]
fn process_jmdict_word_filters_senses_and_glosses() {
    let senses = vec![
        Sense {
            stagk: texts(&["他"]),
            stagr: vec![],
            misc: texts(&["word usually written using kana alone"]),
            gloss: vec![gloss("other", None)],
        },
        Sense {
            stagk: texts(&["食べる"]),
            stagr: texts(&["たべる", "くう"]),
            misc: vec![],
            gloss: vec![gloss("to eat", None), gloss("manger", Some("fre")), gloss("to dine", None)],
        },
        Sense {
            stagk: vec![],
            stagr: texts(&["くう"]),
            misc: vec![],
            gloss: vec![gloss("to devour", None)],
        },
        sense(&["to live on"]),
    ];
    let row = process_jmdict_word(
        1000,
        &FuriganaIndex::new(vec![]),
        &senses,
        Some("食べる".to_string()),
        &rele("たべる"),
        false,
    );
    assert_eq!(
        row,
        JMdictWord {
            jmdict_id: 1000,
            written_form: "食べる".to_string(),
            reading: Some("たべる".to_string()),
            furigana: vec![],
            meanings: texts(&["to eat", "to dine", "to live on"]),
            usually_kana: false,
        }
    );
}

#[test]
fn process_jmdict_word_flags_what_is_usually_written_in_kana() {
    let mut s = sense(&["pretty"]);
    s.misc = texts(&["word usually written using kana alone"]);
    let none = FuriganaIndex::new(vec![]);
    let row =
        process_jmdict_word(1, &none, &vec![s], Some("綺麗".to_string()), &rele("きれい"), false);
    assert!(row.usually_kana);
    let row = process_jmdict_word(
        1,
        &none,
        &vec![sense(&["pretty"])],
        Some("綺麗".to_string()),
        &rele("きれい"),
        true,
    );
    assert!(row.usually_kana);
    let row = process_jmdict_word(1, &none, &vec![sense(&["pretty"])], None, &rele("きれい"), false);
    assert!(!row.usually_kana);
    assert_eq!(row.reading, None);
    assert_eq!(row.written_form, "きれい");
}

#[test]
fn process_jmdict_marks_rare_kanji_forms() {
    let e = Entry {
        ent_seq: "3".to_string(),
        k_ele: vec![
            kele("綺麗"),
            KEle { keb: "奇麗".to_string(), ke_inf: texts(&["rarely-used kanji form"]) },
        ],
        r_ele: vec![
            REle { reb: "きれい".to_string(), re_restr: vec![] },
            REle { reb: "キレイ".to_string(), re_restr: texts(&["奇麗"]) },
        ],
        sense: vec![sense(&["pretty"])],
    };
    let rows = process_jmdict(&JMdict { entry: vec![e] }, &FuriganaIndex::new(vec![])).unwrap();
    let seen: Vec<(&str, Option<&str>, bool)> = rows
        .iter()
        .map(|r| (r.written_form.as_str(), r.reading.as_deref(), r.usually_kana))
        .collect();
    assert_eq!(
        seen,
        vec![
            ("綺麗", Some("きれい"), false),
            ("奇麗", Some("きれい"), true),
            ("奇麗", Some("キレイ"), true),
        ]
    );
}

#[test]
fn process_jmdict_uses_the_last_furigana_of_a_pair() {
    let entry = |reading: &str, furigana: &str| FuriganaEntry {
        text: "食べる".to_string(),
        reading: reading.to_string(),
        spans: vec![span(0, 3, furigana)],
    };
    let index = FuriganaIndex::new(vec![
        entry("たべる", "た"),
        entry("くべる", "く"),
        entry("たべる", "たっ"),
        entry("あべる", "あ"),
    ]);
    let rows = process_jmdict(&JMdict { entry: vec![eat()] }, &index).unwrap();
    assert_eq!(rows[0].furigana, vec![span(0, 3, "たっ")]);
}

#[test]
fn fill_finds_every_word_of_an_entry() {
    let e = |seq: &str, keb: &str, reb: &str, meaning: &str| Entry {
        ent_seq: seq.to_string(),
        k_ele: vec![kele(keb)],
        r_ele: vec![rele(reb)],
        sense: vec![sense(&[meaning])],
    };
    let mut wf = skeleton(vec![
        bare(1, 30, &["丙"]),
        bare(2, 10, &["甲"]),
        Word { id: 3, jmdict_id: None, written_forms: texts(&["甲"]), meanings: vec![], readings: vec![] },
        bare(4, 20, &["乙"]),
        bare(5, 10, &["甲", "申"]),
        bare(6, 10, &["由"]),
    ]);
    let jmdict = JMdict {
        entry: vec![e("10", "甲", "こう", "first"), e("30", "丙", "へい", "third"), e("20", "乙", "おつ", "second")],
    };
    fill_skeleton(&mut wf, jmdict, "new".to_string(), vec![]).unwrap();
    let meanings: Vec<Vec<String>> = wf.words.iter().map(|w| w.meanings.clone()).collect();
    assert_eq!(
        meanings,
        vec![texts(&["third"]), texts(&["first"]), vec![], texts(&["second"]), texts(&["first"]), vec![]]
    );
    let readings: Vec<usize> = wf.words.iter().map(|w| w.readings.len()).collect();
    assert_eq!(readings, vec![1, 1, 0, 1, 1, 0]);
}

#[test]
fn fill_handles_a_large_dictionary() {
    let n: u32 = 20_000;
    let entries: Vec<Entry> = (0..n)
        .map(|i| Entry {
            ent_seq: format!("{}", 1_000_000 + i),
            k_ele: vec![kele(&format!("語{i}"))],
            r_ele: vec![rele(&format!("ご{i}"))],
            sense: vec![sense(&["word"])],
        })
        .collect();
    let records: Vec<FuriganaRecord> = (0..n)
        .rev()
        .map(|i| FuriganaRecord {
            text: format!("語{i}"),
            reading: format!("ご{i}"),
            furigana: vec![ruby("語", Some("ご")), ruby(&format!("{i}"), None)],
        })
        .collect();
    let words: Vec<Word> =
        (0..n).rev().map(|i| bare(i + 1, 1_000_000 + i, &[&format!("語{i}")])).collect();
    let mut wf = skeleton(words);
    fill_skeleton(&mut wf, JMdict { entry: entries }, "new".to_string(), records).unwrap();
    assert!(wf.words.iter().all(|w| w.meanings == texts(&["word"]) && w.readings.len() == 1));
    assert_eq!(wf.words[0].readings[0].reading, format!("ご{}", n - 1));
    assert_eq!(wf.words[0].readings[0].furigana, vec![span(0, 3, "ご")]);
}

#[test]
fn fill_twice_gives_each_reading_once() {
    let e = Entry {
        ent_seq: "7".to_string(),
        k_ele: vec![kele("明日")],
        r_ele: vec![rele("あした"), rele("あす")],
        sense: vec![sense(&["tomorrow"])],
    };
    let mut wf = skeleton(vec![bare(1, 1000, &["食べる"]), bare(2, 7, &["明日"])]);
    let jmdict = JMdict { entry: vec![eat(), e] };
    fill_skeleton(&mut wf, jmdict.clone(), "new".to_string(), vec![]).unwrap();
    let once = wf.clone();
    assert_eq!(once.words[0].readings.len(), 1);
    assert_eq!(once.words[1].readings.len(), 2);
    fill_skeleton(&mut wf, jmdict.clone(), "new".to_string(), vec![]).unwrap();
    assert_eq!(wf, once);
    fill_skeleton(&mut wf, jmdict, "new".to_string(), vec![]).unwrap();
    assert_eq!(wf, once);
}

#[test]
fn fill_derives_the_readings_of_a_word_anew() {
    let stale = Reading { reading: "くう".to_string(), furigana: vec![], usually_kana: true };
    let mut hit = bare(1, 1000, &["食べる"]);
    hit.readings = vec![stale.clone(), stale.clone()];
    hit.meanings = texts(&["to devour"]);
    let mut spared = bare(2, 1000, &["喰べる"]);
    spared.readings = vec![stale.clone()];
    spared.meanings = texts(&["to devour"]);
    let mut wf = skeleton(vec![hit, spared.clone()]);
    fill_skeleton(&mut wf, JMdict { entry: vec![eat()] }, "new".to_string(), vec![]).unwrap();
    assert_eq!(wf.words[0].meanings, texts(&["to eat"]));
    assert_eq!(
        wf.words[0].readings,
        vec![Reading { reading: "たべる".to_string(), furigana: vec![], usually_kana: false }]
    );
    assert_eq!(wf.words[1], spared);
}

#[test]
fn fill_clears_the_readings_of_a_word_in_kana() {
    let stale = Reading { reading: "アア".to_string(), furigana: vec![], usually_kana: false };
    let mut word = bare(1, 5, &["ああ"]);
    word.readings = vec![stale];
    let e = Entry {
        ent_seq: "5".to_string(),
        k_ele: vec![],
        r_ele: vec![rele("ああ")],
        sense: vec![sense(&["ah"])],
    };
    let mut wf = skeleton(vec![word]);
    fill_skeleton(&mut wf, JMdict { entry: vec![e] }, "new".to_string(), vec![]).unwrap();
    assert!(wf.words[0].readings.is_empty());
    assert_eq!(wf.words[0].meanings, texts(&["ah"]));
}
