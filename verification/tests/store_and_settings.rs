use lwt::entity::WordPair;
use lwt::functions::{
    dice, load_settings, load_store, settings_content, store_content, Setting, Theme,
};
use lwt::text::{chars_of, format_i32, parse_i32_range, trim_range};

fn pair(word: &str, translated: &str, id: u128) -> WordPair {
    let mut p = WordPair::new(word, translated);
    p.id = id;
    p
}

#[test]
fn new_pair_keeps_words_and_gets_a_random_uuid() {
    let p = WordPair::new("hello", "hallo");
    assert_eq!(p.word, "hello");
    assert_eq!(p.translated, "hallo");
    assert_eq!((p.id >> 76) & 0xf, 4);
    assert_eq!((p.id >> 62) & 0x3, 2);
    let q = WordPair::new("hello", "hallo");
    assert_ne!(p.id, q.id);
}

#[test]
fn dice_with_empty_range_is_none() {
    assert_eq!(dice(0, 0), None);
}

#[test]
fn dice_stays_in_range() {
    for _ in 0..200 {
        let v = dice(3, 7).unwrap();
        assert!((3..7).contains(&v));
    }
    assert_eq!(dice(0, 1), Some(0));
}

#[test]
fn store_content_writes_one_line_per_pair() {
    let data = vec![
        pair("cat", "Katze", 0x0123456789abcdef0123456789abcdef),
        pair("dog", "Hund", 0),
    ];
    assert_eq!(
        store_content(&data),
        "cat|Katze|01234567-89ab-cdef-0123-456789abcdef\ndog|Hund|00000000-0000-0000-0000-000000000000\n"
    );
    assert_eq!(store_content(&vec![]), "");
}

#[test]
fn store_round_trip_keeps_words_not_ids() {
    let data = vec![
        pair("cat", "Katze", 7),
        pair("", "leer", 8),
        pair("слово", "word", u128::MAX),
    ];
    let back = load_store(&store_content(&data)).unwrap();
    assert_eq!(back.len(), 3);
    for (a, b) in data.iter().zip(back.iter()) {
        assert_eq!(a.word, b.word);
        assert_eq!(a.translated, b.translated);
        assert_ne!(a.id, b.id);
    }
}

#[test]
fn load_store_of_empty_text_is_empty() {
    assert_eq!(load_store("").unwrap().len(), 0);
}

#[test]
fn load_store_reads_lines_and_fields() {
    let text = "a|b|c\r\nword|trans|x|y\nlast|line|\r";
    let v = load_store(text).unwrap();
    assert_eq!(v.len(), 3);
    assert_eq!((v[0].word.as_str(), v[0].translated.as_str()), ("a", "b"));
    assert_eq!((v[1].word.as_str(), v[1].translated.as_str()), ("word", "trans"));
    assert_eq!((v[2].word.as_str(), v[2].translated.as_str()), ("last", "line"));
}

#[test]
fn load_store_rejects_a_line_without_two_bars() {
    assert!(load_store("a|b|c\nonly|one\n").is_none());
    assert!(load_store("nobar").is_none());
    assert!(load_store("\n").is_none());
    assert!(load_store("a|b|c\n\n").is_none());
}

#[test]
fn settings_content_is_decimal() {
    assert_eq!(settings_content(0), "0");
    assert_eq!(settings_content(4), "4");
    assert_eq!(settings_content(-17), "-17");
    assert_eq!(settings_content(i32::MIN), "-2147483648");
    assert_eq!(settings_content(i32::MAX), "2147483647");
    assert_eq!(format_i32(1000), "1000");
}

#[test]
fn load_settings_reads_a_theme() {
    assert_eq!(load_settings("2"), Setting::Saved(Theme::Gray));
    assert_eq!(load_settings("  4\n"), Setting::Saved(Theme::Tan));
    assert_eq!(load_settings("+0"), Setting::Saved(Theme::Dark));
    assert_eq!(load_settings("\u{3000}1\u{a0}"), Setting::Saved(Theme::Black));
}

#[test]
fn load_settings_without_a_number_is_unset() {
    assert_eq!(load_settings(""), Setting::Unset);
    assert_eq!(load_settings("dark"), Setting::Unset);
    assert_eq!(load_settings("1 2"), Setting::Unset);
    assert_eq!(load_settings("-"), Setting::Unset);
    assert_eq!(load_settings("2147483648"), Setting::Unset);
    assert_eq!(load_settings("99999999999999999999"), Setting::Unset);
}

#[test]
fn load_settings_out_of_range() {
    assert_eq!(load_settings("5"), Setting::OutOfRange(5));
    assert_eq!(load_settings("-1"), Setting::OutOfRange(-1));
    assert_eq!(load_settings("-2147483648"), Setting::OutOfRange(i32::MIN));
}

#[test]
fn settings_round_trip() {
    for x in [-2147483648, -100, -1, 0, 1, 2, 3, 4, 5, 42, 2147483647] {
        let text = settings_content(x);
        let chars = chars_of(&text);
        let (lo, hi) = trim_range(&chars);
        assert_eq!(parse_i32_range(&chars, lo, hi), Some(x));
    }
    for t in [Theme::Dark, Theme::Black, Theme::Gray, Theme::Shake, Theme::Tan] {
        assert_eq!(load_settings(&settings_content(t.id())), Setting::Saved(t));
        assert_eq!(Theme::from_id(t.id()), Some(t));
    }
    assert_eq!(Theme::from_id(5), None);
    assert_eq!(Theme::from_id(-1), None);
}

#[test]
fn parse_matches_std() {
    for s in ["0", "+7", "-7", "007", "", "+", "-", "12a", "2147483647", "2147483648", "-2147483648", "-2147483649", " 1", "1 "] {
        let chars = chars_of(s);
        assert_eq!(parse_i32_range(&chars, 0, chars.len()), s.parse::<i32>().ok(), "{:?}", s);
    }
}

#[test]
fn trim_matches_std() {
    for s in ["", "  ", " a b ", "\t\n x\r\n", "\u{85}y\u{2029}", "\u{200b}z"] {
        let chars = chars_of(s);
        let (lo, hi) = trim_range(&chars);
        let t: String = chars[lo..hi].iter().collect();
        assert_eq!(t, s.trim(), "{:?}", s);
    }
}

#[test]
fn dice_draws_more_than_one_value() {
    let first = dice(0, 4).unwrap();
    assert!((0..300).any(|_| dice(0, 4).unwrap() != first));
}

#[test]
fn loaded_pairs_get_random_uuids() {
    let v = load_store("a|b|c\nd|e|f").unwrap();
    for p in v {
        assert_eq!((p.id >> 76) & 0xf, 4);
        assert_eq!((p.id >> 62) & 0x3, 2);
    }
}
