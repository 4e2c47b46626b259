//! Settings and their defaults.
use vstd::prelude::*;

verus! {

/// Where the program finds its files.
pub struct PathsConfig {
    pub db: String,
    pub jmdict: String,
    pub frequency: String,
    pub known_words_dir: String,
    pub sudachi_dict: String,
}

impl Default for PathsConfig {
    fn default() -> (c: Self)
        ensures
            c.db@ == "japannik.db"@,
            c.jmdict@ == "resources/JMdict"@,
            c.frequency@ == "resources/frequency_spoken.tsv"@,
            c.known_words_dir@ == "known_words"@,
            c.sudachi_dict@ == "resources/system.dic"@,
    {
        PathsConfig {
            db: "japannik.db".to_string(),
            jmdict: "resources/JMdict".to_string(),
            frequency: "resources/frequency_spoken.tsv".to_string(),
            known_words_dir: "known_words".to_string(),
            sudachi_dict: "resources/system.dic".to_string(),
        }
    }
}

/// Sudachi segmentation granularity.
/// - Single:   smallest morpheme units (助動詞, ない split from verb)
/// - Compound: standard dictionary words (日本語 as one token)
/// - Idioms:   largest units including set phrases (気がする as one token)
#[derive(Clone, Copy, PartialEq, Eq, Structural, Debug)]
pub enum SudachiMode {
    Single,
    Compound,
    Idioms,
}

impl Default for SudachiMode {
    fn default() -> (m: Self)
        ensures
            m == SudachiMode::Idioms,
    {
        SudachiMode::Idioms
    }
}

/// The tokenizer's split modes, from shortest units (A) to longest (C).
#[derive(Clone, Copy, PartialEq, Eq, Structural, Debug)]
pub enum SplitMode {
    A,
    B,
    C,
}

impl SudachiMode {
    /// The tokenizer split mode for this granularity.
    pub fn split_mode(self) -> (m: SplitMode)
        ensures
            m == match self {
                SudachiMode::Single => SplitMode::A,
                SudachiMode::Compound => SplitMode::B,
                SudachiMode::Idioms => SplitMode::C,
            },
    {
        match self {
            SudachiMode::Single => SplitMode::A,
            SudachiMode::Compound => SplitMode::B,
            SudachiMode::Idioms => SplitMode::C,
        }
    }
}

/// General behaviour.
pub struct GeneralConfig {
    pub sudachi_mode: SudachiMode,
    pub ignore_known_words: bool,
    pub normalize_known_words: bool,
    pub verbose: bool,
    /// Column index (0-based) in Anki TSV exports that holds the clean word.
    pub known_words_col: usize,
}

impl Default for GeneralConfig {
    fn default() -> (c: Self)
        ensures
            c.sudachi_mode == SudachiMode::Idioms,
            c.ignore_known_words,
            c.normalize_known_words,
            !c.verbose,
            c.known_words_col == 0,
    {
        GeneralConfig {
            sudachi_mode: SudachiMode::Idioms,
            ignore_known_words: true,
            normalize_known_words: true,
            verbose: false,
            known_words_col: 0,
        }
    }
}

/// What a run writes out.
pub struct OutputConfig {
    /// Top N unknown words from the input text, ranked by how often they appear there.
    pub max_from_text: usize,
    /// Top M words from the remaining text unknowns, ranked by general corpus frequency.
    /// Catches high-value words that happened to appear rarely in this specific text.
    pub max_from_corpus: usize,
    /// Reserved for a future sentence-mining feature. Leave at 0 for now.
    pub max_from_sentences: usize,
    /// For the sentence feature: a "perfect" sentence has at most this many unknown words.
    pub max_unknown_in_sentence: usize,
    /// Ignore words appearing fewer than this many times in the input text.
    pub min_text_occurrences: usize,
    /// JMdict language codes to include as translation columns in the CSV.
    pub output_languages: Vec<String>,
    /// Include the computed corpus frequency score as a column in the vocab CSV.
    pub output_freq_score: bool,
}

impl Default for OutputConfig {
    fn default() -> (c: Self)
        ensures
            c.max_from_text == 10,
            c.max_from_corpus == 5,
            c.max_from_sentences == 0,
            c.max_unknown_in_sentence == 2,
            c.min_text_occurrences == 1,
            c.output_languages@.len() == 2,
            c.output_languages@[0]@ == "de"@,
            c.output_languages@[1]@ == "en"@,
            !c.output_freq_score,
    {
        OutputConfig {
            max_from_text: 10,
            max_from_corpus: 5,
            max_from_sentences: 0,
            max_unknown_in_sentence: 2,
            min_text_occurrences: 1,
            output_languages: vec!["de".to_string(), "en".to_string()],
            output_freq_score: false,
        }
    }
}

} // verus!
