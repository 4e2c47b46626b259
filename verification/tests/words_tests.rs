use japannik::db::{ensure_schema, ADD_IS_KNOWN_SQL, CREATE_INDEXES_SQL, CREATE_TABLES_SQL};
use japannik::words::{
    build_word_entry, group_translations, load_known_words, vocab_csv_row, VOCAB_CSV_HEADER,
};
use japannik::word_set::WordSet;

fn pairs(v: &[(&str, &str)]) -> Vec<(String, String)> {
    v.iter().map(|(a, b)| (a.to_string(), b.to_string())).collect()
}

#[test]
fn known_words_hold_both_forms() {
    let known = load_known_words(&pairs(&[("学校", "がっこう"), ("海", "うみ")]));
    for w in ["学校", "がっこう", "海", "うみ"] {
        assert!(known.contains(w));
    }
    assert!(!known.contains("山"));
    assert_eq!(known.len(), 4);
}

#[test]
fn translations_grouped_by_requested_language() {
    let glosses = pairs(&[("en", "school"), ("de", "Schule"), ("fr", "école"), ("en", "academy"), ("de", "Akademie")]);
    let langs = vec!["de".to_string(), "en".to_string()];
    let grouped = group_translations(&glosses, &langs);
    assert_eq!(
        grouped,
        vec![
            ("en".to_string(), vec!["school".to_string(), "academy".to_string()]),
            ("de".to_string(), vec!["Schule".to_string(), "Akademie".to_string()]),
        ]
    );
}

#[test]
fn entries_and_rows() {
    let langs = vec!["de".to_string(), "en".to_string()];
    let glosses = pairs(&[("en", "school"), ("de", "Schule"), ("de", "Lehranstalt")]);
    let e = build_word_entry("学校", Some(("がっこう".to_string(), glosses)), &langs);
    assert_eq!(vocab_csv_row(&e), "学校|がっこう|Schule;Lehranstalt|school|");
    let missing = build_word_entry("謎", None, &langs);
    assert_eq!(missing.word_kana, "");
    assert!(missing.translations.is_empty());
    assert_eq!(vocab_csv_row(&missing), "謎||||");
    assert_eq!(VOCAB_CSV_HEADER, "word|hiragana|translation_german|translation_english|example_sentence");
}

#[test]
fn schema_statements() {
    let steps = ensure_schema();
    assert_eq!(steps.len(), 19);
    assert_eq!(steps[0].sql, CREATE_TABLES_SQL);
    assert!(steps[0].required);
    assert_eq!(steps[1].sql, ADD_IS_KNOWN_SQL);
    assert!(!steps[1].required);
    assert_eq!(steps[2].sql, "ALTER TABLE words ADD COLUMN freq_total INTEGER NOT NULL DEFAULT 0");
    assert_eq!(steps[17].sql, "ALTER TABLE words ADD COLUMN freq_pets INTEGER NOT NULL DEFAULT 0");
    assert!(!steps[17].required);
    assert_eq!(steps[18].sql, CREATE_INDEXES_SQL);
    assert!(steps[18].required);
}

#[test]
fn word_set_basics() {
    let mut s = WordSet::new();
    assert!(s.insert("b"));
    assert!(s.insert("a"));
    assert!(!s.insert("b"));
    assert!(s.insert("ab"));
    assert_eq!(s.to_vec(), vec!["a".to_string(), "ab".to_string(), "b".to_string()]);
    assert!(s.contains("ab"));
    assert!(!s.contains("c"));
}
