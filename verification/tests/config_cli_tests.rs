use japannik::cli::{
    action_for_selection, input_source_choice, known_words_source_choice, path_source, Action,
    PathSource, SourceChoice,
};
use japannik::config::{GeneralConfig, OutputConfig, PathsConfig, SplitMode, SudachiMode};
use std::path::PathBuf;

#[test]
fn defaults() {
    let p = PathsConfig::default();
    assert_eq!(p.db, "japannik.db");
    assert_eq!(p.jmdict, "resources/JMdict");
    assert_eq!(p.frequency, "resources/frequency_spoken.tsv");
    assert_eq!(p.known_words_dir, "known_words");
    assert_eq!(p.sudachi_dict, "resources/system.dic");
    let g = GeneralConfig::default();
    assert_eq!(g.sudachi_mode, SudachiMode::Idioms);
    assert!(g.ignore_known_words && g.normalize_known_words && !g.verbose);
    assert_eq!(g.known_words_col, 0);
    let o = OutputConfig::default();
    assert_eq!((o.max_from_text, o.max_from_corpus, o.max_from_sentences), (10, 5, 0));
    assert_eq!((o.max_unknown_in_sentence, o.min_text_occurrences), (2, 1));
    assert_eq!(o.output_languages, vec!["de".to_string(), "en".to_string()]);
    assert!(!o.output_freq_score);
    assert_eq!(SudachiMode::default(), SudachiMode::Idioms);
}

#[test]
fn split_modes() {
    assert_eq!(SudachiMode::Single.split_mode(), SplitMode::A);
    assert_eq!(SudachiMode::Compound.split_mode(), SplitMode::B);
    assert_eq!(SudachiMode::Idioms.split_mode(), SplitMode::C);
}

#[test]
fn menu_actions() {
    assert_eq!(action_for_selection(0), Action::GenerateWords);
    assert_eq!(action_for_selection(1), Action::EatForSentences);
    assert_eq!(action_for_selection(2), Action::AddKnownWords);
    assert_eq!(action_for_selection(3), Action::ResetKnownWords);
    assert_eq!(action_for_selection(4), Action::Config);
    assert_eq!(action_for_selection(5), Action::Quit);
    assert_eq!(action_for_selection(9), Action::Quit);
}

#[test]
fn source_choices() {
    assert_eq!(input_source_choice(0, 3), SourceChoice::AllFiles);
    assert_eq!(input_source_choice(1, 3), SourceChoice::PickFile);
    assert_eq!(input_source_choice(1, 0), SourceChoice::AllFiles);
    assert_eq!(input_source_choice(2, 0), SourceChoice::CustomPath);
    assert_eq!(known_words_source_choice(0, 2), SourceChoice::AllFiles);
    assert_eq!(known_words_source_choice(1, 2), SourceChoice::FileAt(0));
    assert_eq!(known_words_source_choice(2, 2), SourceChoice::FileAt(1));
    assert_eq!(known_words_source_choice(3, 2), SourceChoice::CustomPath);
    assert_eq!(known_words_source_choice(1, 0), SourceChoice::CustomPath);
    assert!(matches!(path_source(PathBuf::from("input"), true), PathSource::Dir(p) if p == PathBuf::from("input")));
    assert!(matches!(path_source(PathBuf::from("a.txt"), false), PathSource::File(_)));
}
