use japannik::dictionary::{
    decode_text, katakana_to_hiragana, map_lang, tag_of, JmdictParser, StepResult, Tag, XmlEvent,
};

#[test]
fn katakana_becomes_hiragana() {
    assert_eq!(katakana_to_hiragana("カタカナ"), "かたかな");
    assert_eq!(katakana_to_hiragana("ヴァイオリン"), "ゔぁいおりん");
    assert_eq!(katakana_to_hiragana("ひらがな漢字abc"), "ひらがな漢字abc");
    assert_eq!(katakana_to_hiragana("ラーメン"), "らーめん");
}

#[test]
fn language_codes() {
    assert_eq!(map_lang("ger"), "de");
    assert_eq!(map_lang("fre"), "fr");
    assert_eq!(map_lang("fra"), "fr");
    assert_eq!(map_lang("dut"), "nl");
    assert_eq!(map_lang("nld"), "nl");
    assert_eq!(map_lang("spa"), "es");
    assert_eq!(map_lang("hun"), "hu");
    assert_eq!(map_lang("rus"), "ru");
    assert_eq!(map_lang("slv"), "sl");
    assert_eq!(map_lang("eng"), "en");
    assert_eq!(map_lang("swe"), "swe");
    assert_eq!(map_lang(map_lang("ger")), "de");
}

#[test]
fn text_is_unescaped() {
    assert_eq!(decode_text(&b"a &amp; b".to_vec()), Some("a & b".to_string()));
    assert_eq!(decode_text(&b"&#x3042;".to_vec()), Some("あ".to_string()));
    assert_eq!(decode_text(&b"plain".to_vec()), Some("plain".to_string()));
    assert_eq!(decode_text(&b"&n;".to_vec()), None);
    assert_eq!(decode_text(&vec![0xff, 0xfe]), None);
}

#[test]
fn tags() {
    assert_eq!(tag_of(&b"entry".to_vec()), Tag::Entry);
    assert_eq!(tag_of(&b"ent_seq".to_vec()), Tag::EntSeq);
    assert_eq!(tag_of(&b"k_ele".to_vec()), Tag::KEle);
    assert_eq!(tag_of(&b"keb".to_vec()), Tag::Keb);
    assert_eq!(tag_of(&b"r_ele".to_vec()), Tag::REle);
    assert_eq!(tag_of(&b"reb".to_vec()), Tag::Reb);
    assert_eq!(tag_of(&b"sense".to_vec()), Tag::Sense);
    assert_eq!(tag_of(&b"pos".to_vec()), Tag::Pos);
    assert_eq!(tag_of(&b"gloss".to_vec()), Tag::Gloss);
    assert_eq!(tag_of(&b"JMdict".to_vec()), Tag::Other);
}

fn start(name: &str) -> XmlEvent {
    XmlEvent::Start { name: name.as_bytes().to_vec(), lang: None }
}

fn start_lang(name: &str, lang: &str) -> XmlEvent {
    XmlEvent::Start { name: name.as_bytes().to_vec(), lang: Some(lang.as_bytes().to_vec()) }
}

fn end(name: &str) -> XmlEvent {
    XmlEvent::End { name: name.as_bytes().to_vec() }
}

fn text(t: &str) -> XmlEvent {
    XmlEvent::Text { raw: t.as_bytes().to_vec() }
}

fn run(parser: &mut JmdictParser, events: Vec<XmlEvent>) -> Vec<StepResult> {
    events.iter().map(|e| parser.step(e)).collect()
}

#[test]
fn reads_a_full_entry() {
    let mut p = JmdictParser::new();
    let events = vec![
        start("JMdict"),
        start("entry"),
        start("ent_seq"), text(" 1206730 "), end("ent_seq"),
        start("k_ele"), start("keb"), text("学校"), end("keb"), end("k_ele"),
        start("r_ele"), start("reb"), text("ガッコウ"), end("reb"), end("r_ele"),
        start("sense"),
        start("pos"), text("&n;"), end("pos"),
        start("pos"), text("&n;"), end("pos"),
        start("pos"), text("&adj-no;"), end("pos"),
        start("gloss"), text("school"), end("gloss"),
        start_lang("gloss", "ger"), text("  Schule "), end("gloss"),
        start_lang("gloss", "ger"), text("   "), end("gloss"),
        end("sense"),
        end("entry"),
    ];
    let results = run(&mut p, events);
    let inserts: Vec<&StepResult> = results.iter().filter(|r| matches!(r, StepResult::Insert { .. })).collect();
    assert_eq!(inserts.len(), 1);
    match inserts[0] {
        StepResult::Insert { record, commit } => {
            assert_eq!(record.id, 1206730);
            assert_eq!(record.word, "学校");
            assert_eq!(record.word_kana, "がっこう");
            assert_eq!(record.pos, Some("n,adj-no".to_string()));
            assert_eq!(
                record.glosses,
                vec![
                    ("en".to_string(), "school".to_string()),
                    ("de".to_string(), "Schule".to_string()),
                ]
            );
            assert!(!commit);
        }
        _ => unreachable!(),
    }
    assert_eq!(p.count(), 1);
    assert!(matches!(p.step(&XmlEvent::Eof), StepResult::Finish));
}

#[test]
fn kana_only_entry_and_bad_sequence_number() {
    let mut p = JmdictParser::new();
    let events = vec![
        start("entry"),
        start("ent_seq"), text("12x"), end("ent_seq"),
        start("r_ele"), start("reb"), text("すし"), end("reb"), end("r_ele"),
        start("r_ele"), start("reb"), text("スシ"), end("reb"), end("r_ele"),
        end("entry"),
    ];
    let results = run(&mut p, events);
    match results.last().unwrap() {
        StepResult::Insert { record, .. } => {
            assert_eq!(record.id, 0);
            assert_eq!(record.word, "すし");
            assert_eq!(record.word_kana, "すし");
            assert_eq!(record.pos, None);
            assert!(record.glosses.is_empty());
        }
        _ => panic!("expected an insert"),
    }
}

#[test]
fn next_entry_starts_clean_and_text_outside_states_is_ignored() {
    let mut p = JmdictParser::new();
    run(&mut p, vec![
        start("entry"), start("k_ele"), start("keb"), text("猫"), end("keb"), end("k_ele"), end("entry"),
    ]);
    let results = run(&mut p, vec![text("stray"), start("keb"), text("wrong place"), start("entry"), end("entry")]);
    match results.last().unwrap() {
        StepResult::Insert { record, .. } => {
            assert_eq!(record.word, "");
            assert_eq!(record.word_kana, "");
            assert_eq!(record.id, 0);
        }
        _ => panic!("expected an insert"),
    }
    assert_eq!(p.count(), 2);
    assert!(matches!(p.step(&XmlEvent::Error), StepResult::Finish));
    assert!(matches!(p.step(&XmlEvent::Other), StepResult::Continue));
}

#[test]
fn end_tags_move_the_state_wherever_it_was() {
    // A stray </keb> at the top puts the reader inside <k_ele>, so the next
    // <entry> is not recognised and the previous entry's forms are kept.
    let mut p = JmdictParser::new();
    run(&mut p, vec![
        start("entry"), start("k_ele"), start("keb"), text("猫"), end("keb"), end("k_ele"), end("entry"),
    ]);
    let results = run(&mut p, vec![end("keb"), start("entry"), end("entry")]);
    match results.last().unwrap() {
        StepResult::Insert { record, .. } => assert_eq!(record.word, "猫"),
        _ => panic!("expected an insert"),
    }
}

#[test]
fn commit_every_ten_thousand_entries() {
    let mut p = JmdictParser::new();
    let mut commits = 0;
    for _ in 0..20000 {
        p.step(&start("entry"));
        if let StepResult::Insert { commit, .. } = p.step(&end("entry")) {
            if commit {
                commits += 1;
            }
        }
    }
    assert_eq!(commits, 2);
    assert_eq!(p.count(), 20000);
}

#[test]
fn gloss_languages() {
    let mut p = JmdictParser::new();
    let results = run(&mut p, vec![
        start("entry"),
        start("sense"),
        start_lang("gloss", "swe"), text("skola"), end("gloss"),
        XmlEvent::Start { name: b"gloss".to_vec(), lang: Some(vec![0xff]) }, text("school"), end("gloss"),
        start_lang("gloss", "rus"), text("школа"), end("gloss"),
        end("sense"),
        end("entry"),
    ]);
    match results.last().unwrap() {
        StepResult::Insert { record, .. } => assert_eq!(
            record.glosses,
            vec![
                ("swe".to_string(), "skola".to_string()),
                ("en".to_string(), "school".to_string()),
                ("ru".to_string(), "школа".to_string()),
            ]
        ),
        _ => panic!("expected an insert"),
    }
}
