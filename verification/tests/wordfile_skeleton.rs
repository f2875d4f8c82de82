use jadata::input::jmdict::{Entry, JMdict, KEle, REle};
use jadata::output::wordfile_skeleton::{
    create, process_entry, process_jmdict, unread_forms, update, Error, JMdictWordKatakana,
    JMdictWordVerbatim,
};
use jadata::wordfile::{Header, Reading, Word, Wordfile};

fn kele(keb: &str) -> KEle {
    KEle { keb: keb.to_string(), ke_inf: vec![] }
}

fn rele(reb: &str, restr: &[&str]) -> REle {
    REle { reb: reb.to_string(), re_restr: restr.iter().map(|s| s.to_string()).collect() }
}

fn entry(seq: &str, kebs: &[&str], rebs: &[&str]) -> Entry {
    Entry {
        ent_seq: seq.to_string(),
        k_ele: kebs.iter().map(|k| kele(k)).collect(),
        r_ele: rebs.iter().map(|r| rele(r, &[])).collect(),
        sense: vec![],
    }
}

fn bare(id: u32, jmdict_id: u32, forms: &[&str]) -> Word {
    Word {
        id,
        jmdict_id: Some(jmdict_id),
        written_forms: forms.iter().map(|s| s.to_string()).collect(),
        meanings: vec![],
        readings: vec![],
    }
}

fn verbatim(id: u32, form: &str) -> JMdictWordVerbatim {
    JMdictWordVerbatim { id, written_form: form.to_string() }
}

#[test]
fn from_verbatim_folds_hiragana_to_katakana() {
    let key = JMdictWordKatakana::from_verbatim(&verbatim(7, "きれい"));
    assert_eq!(key.jmdict_id, 7);
    assert_eq!(key.written_form_katakana, "キレイ");
}

#[test]
fn from_verbatim_keeps_katakana_and_kanji() {
    let key = JMdictWordKatakana::from_verbatim(&verbatim(7, "キレイ"));
    assert_eq!(key.written_form_katakana, "キレイ");
    let key = JMdictWordKatakana::from_verbatim(&verbatim(8, "食べる"));
    assert_eq!(key.written_form_katakana, "食ベル");
}

#[test]
fn from_verbatim_returns_text_without_kana_as_it_is() {
    for text in ["a", "kirei", "KIREI", "明日", "tōkyō 12", "", "ｶﾞ", "ー"] {
        let key = JMdictWordKatakana::from_verbatim(&verbatim(3, text));
        let kana = text.chars().any(|c| matches!(c, 'ｶ' | 'ﾞ' | 'ー'));
        if !kana {
            assert_eq!(key.written_form_katakana, text, "{text:?}");
        }
        assert_eq!(key.jmdict_id, 3);
    }
    assert_eq!(JMdictWordKatakana::from_verbatim(&verbatim(3, "ｶﾞ")).written_form_katakana, "ガ");
}

#[test]
fn create_keeps_latin_spellings_apart_from_kana() {
    let jmdict = JMdict { entry: vec![entry("1", &[], &["きれい", "kirei", "キレイ", "KIREI"])] };
    let wf = create(jmdict, "r".to_string()).unwrap();
    assert_eq!(
        wf.words,
        vec![bare(1, 1, &["KIREI"]), bare(2, 1, &["kirei"]), bare(3, 1, &["きれい", "キレイ"])]
    );
}

#[test]
fn process_entry_prefers_the_kanji_form() {
    assert_eq!(
        process_entry(5, Some("食べる".to_string()), "たべる".to_string()),
        verbatim(5, "食べる")
    );
    assert_eq!(process_entry(5, None, "たべる".to_string()), verbatim(5, "たべる"));
}

#[test]
fn process_jmdict_lists_readings_where_there_is_no_kanji_form() {
    let jmdict = JMdict { entry: vec![entry("12", &[], &["ああ", "アア"])] };
    assert_eq!(process_jmdict(&jmdict), Ok(vec![verbatim(12, "ああ"), verbatim(12, "アア")]));
}

#[test]
fn process_jmdict_lists_a_kanji_form_once_for_each_reading_that_applies() {
    let e = Entry {
        ent_seq: "20".to_string(),
        k_ele: vec![kele("明日"), kele("明くる日"), kele("孤")],
        r_ele: vec![
            rele("あした", &["明日"]),
            rele("あす", &["明日", "明くる日"]),
            rele("みょうにち", &["他"]),
        ],
        sense: vec![],
    };
    assert_eq!(
        process_jmdict(&JMdict { entry: vec![e] }),
        Ok(vec![verbatim(20, "明日"), verbatim(20, "明日"), verbatim(20, "明くる日")])
    );
}

#[test]
fn process_jmdict_rejects_a_sequence_number_that_is_no_number() {
    let jmdict = JMdict {
        entry: vec![entry("1", &[], &["あ"]), entry("x1", &[], &["い"]), entry("", &[], &["う"])],
    };
    assert_eq!(process_jmdict(&jmdict), Err(Error::InvalidId { entry: 1 }));
}

#[test]
fn create_merges_the_spellings_of_one_reading() {
    let jmdict = JMdict { entry: vec![entry("1000", &["きれい", "キレイ"], &["きれい"])] };
    let wf = create(jmdict, "Rev 1.09".to_string()).unwrap();
    assert_eq!(wf.header.version, "");
    assert_eq!(wf.header.jmdict_version, "Rev 1.09");
    assert_eq!(wf.words, vec![bare(1, 1000, &["きれい", "キレイ"])]);
}

#[test]
fn create_merges_across_entries_with_the_same_sequence_number() {
    let jmdict = JMdict {
        entry: vec![entry("1000", &[], &["キレイ"]), entry("1000", &[], &["きれい"])],
    };
    let wf = create(jmdict, "r".to_string()).unwrap();
    assert_eq!(wf.words, vec![bare(1, 1000, &["きれい", "キレイ"])]);
}

#[test]
fn create_keeps_entries_apart_that_share_a_written_form() {
    let jmdict = JMdict {
        entry: vec![
            entry("30", &[], &["はし"]),
            entry("20", &[], &["ハシ"]),
            entry("25", &[], &["あめ"]),
        ],
    };
    let wf = create(jmdict, "r".to_string()).unwrap();
    assert_eq!(
        wf.words,
        vec![bare(1, 25, &["あめ"]), bare(2, 20, &["ハシ"]), bare(3, 30, &["はし"])]
    );
}

#[test]
fn create_makes_one_word_for_each_folded_written_form() {
    let jmdict = JMdict { entry: vec![entry("7", &["日本", "二本"], &["にほん"])] };
    let wf = create(jmdict, "r".to_string()).unwrap();
    assert_eq!(wf.words, vec![bare(1, 7, &["二本"]), bare(2, 7, &["日本"])]);
}

#[test]
fn create_skips_a_kanji_form_without_a_reading() {
    let e = Entry {
        ent_seq: "9".to_string(),
        k_ele: vec![kele("甲"), kele("乙")],
        r_ele: vec![rele("こう", &["甲"])],
        sense: vec![],
    };
    let wf = create(JMdict { entry: vec![e] }, "r".to_string()).unwrap();
    assert_eq!(wf.words, vec![bare(1, 9, &["甲"])]);
}

#[test]
fn create_word_skeleton_from_nothing_is_empty() {
    let wf = create(JMdict { entry: vec![] }, "r".to_string()).unwrap();
    assert!(wf.words.is_empty());
    assert_eq!(wf.header.jmdict_version, "r");
}

#[test]
fn create_fails_on_a_sequence_number_that_is_no_number() {
    let jmdict = JMdict { entry: vec![entry("12", &[], &["あ"]), entry("1 3", &[], &["い"])] };
    assert_eq!(create(jmdict, "r".to_string()), Err(Error::InvalidId { entry: 1 }));
}

#[test]
fn update_appends_and_leaves_the_curated_words_alone() {
    let mut curated = bare(4, 100, &["きれい"]);
    curated.meanings = vec!["pretty".to_string()];
    curated.readings =
        vec![Reading { reading: "きれい".to_string(), furigana: vec![], usually_kana: true }];
    let own = Word {
        id: 9,
        jmdict_id: None,
        written_forms: vec!["うちの".to_string()],
        meanings: vec![],
        readings: vec![],
    };
    let mut wf = Wordfile {
        header: Header { version: "2".to_string(), jmdict_version: "old".to_string() },
        words: vec![curated.clone(), own.clone()],
    };
    let jmdict = JMdict {
        entry: vec![
            entry("100", &["キレイ", "綺麗"], &["きれい"]),
            entry("101", &[], &["うちの"]),
        ],
    };
    update(&mut wf, jmdict, "new".to_string()).unwrap();
    assert_eq!(wf.header.version, "2");
    assert_eq!(wf.header.jmdict_version, "new");
    assert_eq!(wf.words, vec![curated, own, bare(10, 101, &["うちの"]), bare(11, 100, &["綺麗"])]);
}

#[test]
fn update_words_with_more_upstream_changes_no_id() {
    let first = JMdict { entry: vec![entry("1", &[], &["あ"]), entry("2", &[], &["い"])] };
    let mut wf = create(first, "a".to_string()).unwrap();
    let before = wf.clone();
    let second = JMdict {
        entry: vec![
            entry("1", &[], &["あ"]),
            entry("2", &[], &["い"]),
            entry("3", &[], &["あい"]),
        ],
    };
    update(&mut wf, second, "b".to_string()).unwrap();
    assert_eq!(&wf.words[..2], &before.words[..]);
    assert_eq!(wf.words[2..], [bare(3, 3, &["あい"])]);
}

#[test]
fn update_words_with_nothing_new_adds_nothing() {
    let jmdict = JMdict { entry: vec![entry("1", &["一"], &["いち"])] };
    let mut wf = create(jmdict.clone(), "a".to_string()).unwrap();
    let before = wf.clone();
    update(&mut wf, jmdict, "a".to_string()).unwrap();
    assert_eq!(wf, before);
}

#[test]
fn update_keeps_ids_unique() {
    let mut wf = create(
        JMdict { entry: vec![entry("1", &["一", "壱"], &["いち"])] },
        "a".to_string(),
    )
    .unwrap();
    update(
        &mut wf,
        JMdict { entry: vec![entry("2", &["二"], &["に"]), entry("1", &["一"], &["いち"])] },
        "b".to_string(),
    )
    .unwrap();
    let mut ids: Vec<u32> = wf.words.iter().map(|w| w.id).collect();
    ids.sort();
    ids.dedup();
    assert_eq!(ids, vec![1, 2, 3]);
}

#[test]
fn update_fails_on_a_bad_sequence_number_and_changes_nothing() {
    let mut wf = Wordfile {
        header: Header { version: "2".to_string(), jmdict_version: "old".to_string() },
        words: vec![bare(1, 5, &["あ"])],
    };
    let before = wf.clone();
    let jmdict = JMdict { entry: vec![entry("-5", &[], &["い"])] };
    assert_eq!(update(&mut wf, jmdict, "new".to_string()), Err(Error::InvalidId { entry: 0 }));
    assert_eq!(wf, before);
}

#[test]
fn update_words_without_ids_left_changes_nothing() {
    let mut wf = Wordfile {
        header: Header { version: "2".to_string(), jmdict_version: "old".to_string() },
        words: vec![bare(u32::MAX, 5, &["あ"])],
    };
    let before = wf.clone();
    let jmdict = JMdict { entry: vec![entry("6", &[], &["い"])] };
    assert_eq!(update(&mut wf, jmdict, "new".to_string()), Err(Error::OutOfIds));
    assert_eq!(wf, before);
}

#[test]
fn update_matches_a_word_by_its_first_written_form() {
    let mut wf = Wordfile {
        header: Header { version: "2".to_string(), jmdict_version: "old".to_string() },
        words: vec![bare(1, 5, &["キレイ"])],
    };
    let jmdict = JMdict { entry: vec![entry("5", &["きれい"], &["きれい"])] };
    update(&mut wf, jmdict, "new".to_string()).unwrap();
    assert_eq!(wf.words, vec![bare(1, 5, &["キレイ"])]);
}

#[test]
fn unread_forms_lists_kanji_forms_without_a_reading() {
    let e = Entry {
        ent_seq: "9".to_string(),
        k_ele: vec![kele("甲"), kele("乙"), kele("丙"), kele("丁")],
        r_ele: vec![rele("こう", &["甲"]), rele("へい", &["丙", "甲"])],
        sense: vec![],
    };
    let all_read = entry("10", &["戊"], &["ぼ"]);
    let never_read = Entry {
        ent_seq: "not looked at".to_string(),
        k_ele: vec![kele("己")],
        r_ele: vec![],
        sense: vec![],
    };
    let jmdict = JMdict { entry: vec![e, all_read, entry("11", &[], &["かな"]), never_read] };
    assert_eq!(unread_forms(&jmdict), vec!["乙", "丁", "己"]);
    assert!(unread_forms(&JMdict { entry: vec![] }).is_empty());
}

#[test]
fn create_handles_a_large_dictionary() {
    let n: u32 = 20_000;
    let entries: Vec<Entry> = (0..n)
        .rev()
        .map(|i| entry(&format!("{}", 1_000_000 + i), &[&format!("語{}", i % 5_000)], &["ご"]))
        .collect();
    let mut wf = create(JMdict { entry: entries.clone() }, "r".to_string()).unwrap();
    assert_eq!(wf.words.len(), n as usize);
    assert!(wf.words.iter().enumerate().all(|(i, w)| w.id == i as u32 + 1));
    assert_eq!(wf.words[0], bare(1, 1_000_000, &["語0"]));
    assert_eq!(wf.words[1], bare(2, 1_005_000, &["語0"]));
    let before = wf.clone();
    update(&mut wf, JMdict { entry: entries }, "r".to_string()).unwrap();
    assert_eq!(wf, before);
}
