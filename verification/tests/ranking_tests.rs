use japannik::ranking::{
    count_unknown_lemmas, hashmap_to_sorted_vec, rank_unknown_lemmas, skipped_parts_of_speech,
    LemmaCounts, Morpheme, MAX_LEMMAS,
};
use japannik::word_set::WordSet;

fn m(pos: &[&str], lemma: &str) -> Morpheme {
    Morpheme {
        part_of_speech: pos.iter().map(|p| p.to_string()).collect(),
        dictionary_form: lemma.to_string(),
    }
}

fn sample() -> Vec<Morpheme> {
    vec![
        m(&["名詞", "普通名詞"], "海賊"),
        m(&["助詞", "格助詞"], "が"),
        m(&["名詞", "普通名詞"], "海賊"),
        m(&["動詞", "一般"], "飲む"),
        m(&["名詞", "固有名詞"], "ルフィ"),
        m(&["名詞", "普通名詞"], "海"),
        m(&["名詞", "普通名詞"], "海"),
        m(&["名詞", "普通名詞"], "学校"),
        m(&["名詞", "普通名詞"], "海賊"),
    ]
}

#[test]
fn counts_skip_parts_of_speech_and_known_words() {
    let mut known = WordSet::new();
    known.insert("学校");
    let counts = count_unknown_lemmas(&sample(), &skipped_parts_of_speech(), &known);
    assert_eq!(counts.get("海賊"), 3);
    assert_eq!(counts.get("海"), 2);
    assert_eq!(counts.get("飲む"), 1);
    assert_eq!(counts.get("が"), 0);
    assert_eq!(counts.get("ルフィ"), 0);
    assert_eq!(counts.get("学校"), 0);
    assert_eq!(counts.len(), 3);
}

#[test]
fn sorted_by_count_then_word() {
    let mut c = LemmaCounts::new();
    for w in ["b", "a", "c", "a", "b", "d"] {
        c.increment(w.chars().collect());
    }
    let sorted = hashmap_to_sorted_vec(&c);
    assert_eq!(
        sorted,
        vec![
            ("a".to_string(), 2),
            ("b".to_string(), 2),
            ("c".to_string(), 1),
            ("d".to_string(), 1),
        ]
    );
    assert!(hashmap_to_sorted_vec(&LemmaCounts::new()).is_empty());
}

#[test]
fn top_lemmas_are_cut() {
    let known = WordSet::new();
    let top = rank_unknown_lemmas(&sample(), &skipped_parts_of_speech(), &known, 2);
    assert_eq!(top, vec![("海賊".to_string(), 3), ("海".to_string(), 2)]);
    let all = rank_unknown_lemmas(&sample(), &skipped_parts_of_speech(), &known, MAX_LEMMAS);
    assert_eq!(all.len(), 4);
    assert_eq!(all[0], ("海賊".to_string(), 3));
    assert_eq!(MAX_LEMMAS, 15);
}

#[test]
fn skip_list() {
    assert_eq!(
        skipped_parts_of_speech(),
        vec!["助動詞", "補助記号", "助詞", "空白", "数詞", "固有名詞", "接尾辞"]
    );
}
