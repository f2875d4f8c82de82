use jadata::ordered::{same_key, sort, sorted, sorted_set, Ordered, Placed, Places};
use jadata::text::{
    chars_of, clone_texts, contains_text, fold, is_kana, parse_u32, str_eq, str_le,
};

fn texts(v: &[&str]) -> Vec<String> {
    v.iter().map(|s| s.to_string()).collect()
}

#[test]
fn parse_u32_reads_digits() {
    assert_eq!(parse_u32("0"), Some(0));
    assert_eq!(parse_u32("1000"), Some(1000));
    assert_eq!(parse_u32("007"), Some(7));
    assert_eq!(parse_u32("4294967295"), Some(u32::MAX));
}

#[test]
fn parse_u32_takes_one_plus_sign() {
    assert_eq!(parse_u32("+12"), Some(12));
    assert_eq!(parse_u32("++12"), None);
    assert_eq!(parse_u32("+"), None);
}

#[test]
fn parse_u32_rejects_what_is_no_number() {
    assert_eq!(parse_u32(""), None);
    assert_eq!(parse_u32("-1"), None);
    assert_eq!(parse_u32(" 1"), None);
    assert_eq!(parse_u32("1 "), None);
    assert_eq!(parse_u32("1_0"), None);
    assert_eq!(parse_u32("12a"), None);
    assert_eq!(parse_u32("１２"), None);
}

#[test]
fn parse_u32_rejects_what_does_not_fit() {
    assert_eq!(parse_u32("4294967296"), None);
    assert_eq!(parse_u32("99999999999999999999999"), None);
}

#[test]
fn parse_u32_agrees_with_std() {
    for s in ["", "+", "+0", "0", "42", "4294967295", "4294967296", "-0", "1e3", "0x10", "٣"] {
        assert_eq!(parse_u32(s), s.parse::<u32>().ok(), "{s:?}");
    }
}

#[test]
fn str_le_is_the_order_of_strings() {
    let samples = ["", "a", "ab", "b", "きれい", "キレイ", "人", "一", "\u{20000}", "z人"];
    for a in samples {
        for b in samples {
            assert_eq!(str_le(a, b), a <= b, "{a:?} {b:?}");
            assert_eq!(str_eq(a, b), a == b, "{a:?} {b:?}");
        }
    }
}

#[test]
fn chars_of_lists_the_characters() {
    assert_eq!(chars_of("食べる"), vec!['食', 'べ', 'る']);
    assert!(chars_of("").is_empty());
}

#[test]
fn contains_text_finds_a_text() {
    let v = texts(&["あ", "い"]);
    assert!(contains_text(&v, "い"));
    assert!(!contains_text(&v, "う"));
    assert_eq!(clone_texts(&v), v);
}

#[test]
fn sort_keeps_every_value() {
    let v = texts(&["b", "a", "c", "a", "", "人", "b"]);
    assert_eq!(sort(&v), texts(&["", "a", "a", "b", "b", "c", "人"]));
    assert_eq!(sorted(&v), texts(&["", "a", "a", "b", "b", "c", "人"]));
    assert!(sort(&Vec::<String>::new()).is_empty());
}

#[test]
fn sorted_set_keeps_one_of_each() {
    let v = texts(&["b", "a", "c", "a", "", "人", "b"]);
    assert_eq!(sorted_set(&v), texts(&["", "a", "b", "c", "人"]));
    assert_eq!(sorted_set(&texts(&["a", "a", "b"])), texts(&["a", "b"]));
    assert!(sorted_set(&Vec::<String>::new()).is_empty());
}

#[test]
fn sort_orders_many_values() {
    let mut v: Vec<String> = (0..500u32).map(|i| format!("{}", (i * 7919) % 1000)).collect();
    let out = sort(&v);
    v.sort();
    assert_eq!(out, v);
}

#[test]
fn places_lists_the_places_of_a_key() {
    let v = texts(&["b", "a", "c", "a", "", "人", "b", "a"]);
    let places = Places::of(&v);
    assert_eq!(places.all(&"a".to_string()), vec![1, 3, 7]);
    assert_eq!(places.all(&"b".to_string()), vec![0, 6]);
    assert_eq!(places.all(&"人".to_string()), vec![5]);
    assert_eq!(places.all(&"".to_string()), vec![4]);
    assert!(places.all(&"d".to_string()).is_empty());
    assert_eq!(places.first(&"a".to_string()), Some(1));
    assert_eq!(places.last(&"a".to_string()), Some(7));
    assert_eq!(places.first(&"c".to_string()), Some(2));
    assert_eq!(places.last(&"c".to_string()), Some(2));
    assert_eq!(places.first(&"z".to_string()), None);
    assert_eq!(places.last(&"z".to_string()), None);
    assert_eq!(Places::<String>::of(&vec![]).last(&"a".to_string()), None);
}

#[test]
fn places_ranks_absent_integers_first() {
    let v = vec![Some(3u32), None, Some(1), Some(3), None];
    let places = Places::of(&v);
    assert_eq!(places.all(&None), vec![1, 4]);
    assert_eq!(places.all(&Some(3)), vec![0, 3]);
    assert_eq!(places.all(&Some(1)), vec![2]);
    assert!(places.all(&Some(2)).is_empty());
    assert!(None.precedes(&Some(0u32)));
    assert!(!Some(0u32).precedes(&None));
    assert!(Some(1u32).precedes(&Some(1)));
    assert!(1u32.precedes(&2));
    assert!(!2u32.precedes(&1));
}

#[test]
fn placed_values_rank_by_key_then_place() {
    let placed = |item: &str, at: usize| Placed { item: item.to_string(), at };
    assert!(placed("a", 4).precedes(&placed("b", 1)));
    assert!(!placed("b", 1).precedes(&placed("a", 4)));
    assert!(placed("a", 0).precedes(&placed("a", 4)));
    assert!(placed("a", 4).precedes(&placed("a", 4)));
    assert!(!placed("a", 4).precedes(&placed("a", 0)));
    assert!(same_key(&"a".to_string(), &"a".to_string()));
    assert!(!same_key(&"a".to_string(), &"b".to_string()));
    assert!(same_key(&placed("a", 1), &placed("a", 1)));
    assert!(!same_key(&placed("a", 1), &placed("a", 2)));
}

#[test]
fn is_kana_takes_the_blocks_of_kana() {
    for c in ['あ', 'ん', 'ア', 'ヶ', 'ー', '\u{3040}', '\u{309F}', '\u{30A0}', '\u{30FF}'] {
        assert!(is_kana(c), "{c:?}");
    }
    for c in ['\u{31F0}', '\u{31FF}', '\u{FF65}', 'ｱ', '\u{FF9F}'] {
        assert!(is_kana(c), "{c:?}");
    }
    for c in ['a', 'Z', '1', ' ', '人', '。', '\u{303F}', '\u{3100}', '\u{FF64}', '\u{FFA0}'] {
        assert!(!is_kana(c), "{c:?}");
    }
}

#[test]
fn fold_turns_kana_into_katakana() {
    assert_eq!(fold("きれい"), "キレイ");
    assert_eq!(fold("キレイ"), "キレイ");
    assert_eq!(fold("食べる"), "食ベル");
    assert_eq!(fold("ｷﾚｲ"), "キレイ");
}

#[test]
fn fold_returns_text_without_kana_as_it_is() {
    for text in ["", "a", "kirei", "KIREI", "Tōkyō", "12a*b&c-d", "明日", "日本 nihon", "!?.,"] {
        assert_eq!(fold(text), text, "{text:?}");
    }
}
