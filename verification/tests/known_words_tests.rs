use japannik::known_words::{add_dictionary_forms, clean_field, is_japanese, parse_anki_export};
use japannik::word_set::WordSet;

#[test]
fn clean_field_furigana_in_braces() {
    assert_eq!(clean_field("{[護衛|ごえい];0}"), "護衛");
}

#[test]
fn clean_field_pitch_in_braces() {
    assert_eq!(clean_field("{ずばり;2}"), "ずばり");
}

#[test]
fn clean_field_bracket_without_pipe_is_dropped() {
    assert_eq!(clean_field("地理[ちり;a]"), "地理");
    assert_eq!(clean_field("わたし[;h]"), "わたし");
}

#[test]
fn clean_field_parentheses_are_dropped() {
    assert_eq!(clean_field("食べる(たべる)"), "食べる");
    assert_eq!(clean_field("a(b(c)d)日本"), "日本");
}

#[test]
fn clean_field_keeps_only_japanese() {
    assert_eq!(clean_field("hello 世界 123"), "世界");
    assert_eq!(clean_field("abc"), "");
    assert_eq!(clean_field(""), "");
}

#[test]
fn clean_field_unclosed_bracket_takes_rest() {
    assert_eq!(clean_field("{猫;x"), "猫");
    assert_eq!(clean_field("犬[いぬ|x"), "犬いぬ");
}

#[test]
fn clean_field_plain_word_unchanged() {
    assert_eq!(clean_field("勉強"), "勉強");
    assert_eq!(clean_field(&clean_field("{[護衛|ごえい];0}")), "護衛");
}

#[test]
fn is_japanese_ranges() {
    assert!(is_japanese('あ'));
    assert!(is_japanese('カ'));
    assert!(is_japanese('ー'));
    assert!(is_japanese('漢'));
    assert!(is_japanese('\u{3400}'));
    assert!(!is_japanese('a'));
    assert!(!is_japanese('。'));
    assert!(is_japanese('\u{30FF}'));
    assert!(!is_japanese('\u{3100}'));
}

#[test]
fn anki_export_lines() {
    let content = "#separator:tab\n{[護衛|ごえい];0}\tguard\n\n   \nfoo\tbar\n犬\r\n";
    let words = parse_anki_export(content, 0);
    assert_eq!(words, vec!["護衛".to_string(), "犬".to_string()]);
    let second = parse_anki_export("a\t学校\nb\n", 1);
    assert_eq!(second, vec!["学校".to_string()]);
}

#[test]
fn dictionary_forms_extend_known_words() {
    let mut set = WordSet::new();
    set.insert("構わない");
    let forms = vec!["構う".to_string(), "構わない".to_string(), "abc".to_string(), "x構うy".to_string()];
    let added = add_dictionary_forms(&mut set, &forms);
    assert_eq!(added, 1);
    assert!(set.contains("構う"));
    assert!(set.contains("構わない"));
    assert_eq!(set.len(), 2);
}
