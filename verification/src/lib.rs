//! Vocabulary extraction for Japanese text.
pub mod text;
pub mod known_words;
pub mod word_set;
pub mod ranking;
pub mod dictionary;
pub mod frequency;
pub mod db;
pub mod words;
pub mod config;
pub mod cli;
