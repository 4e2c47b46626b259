//! The choices of the interactive menus.
use vstd::prelude::*;
use std::path::PathBuf;

verus! {

/// `std::path::PathBuf`, carried through as an opaque value.
#[verifier::external_type_specification]
#[verifier::external_body]
pub struct ExPathBuf(PathBuf);

/// What the user asks the program to do.
#[derive(Clone, Copy, PartialEq, Eq, Structural, Debug)]
pub enum Action {
    GenerateWords,
    EatForSentences,
    AddKnownWords,
    ResetKnownWords,
    Config,
    Quit,
}

/// The action of a main-menu entry (by position); positions past the menu
/// quit.
pub fn action_for_selection(selection: usize) -> (a: Action)
    ensures
        a == match selection {
            0 => Action::GenerateWords,
            1 => Action::EatForSentences,
            2 => Action::AddKnownWords,
            3 => Action::ResetKnownWords,
            4 => Action::Config,
            _ => Action::Quit,
        },
{
    match selection {
        0 => Action::GenerateWords,
        1 => Action::EatForSentences,
        2 => Action::AddKnownWords,
        3 => Action::ResetKnownWords,
        4 => Action::Config,
        _ => Action::Quit,
    }
}

/// A resolved input source: a directory (→ read all .txt files) or a single file.
pub enum PathSource {
    Dir(PathBuf),
    File(PathBuf),
}

/// A path the user typed, as a source: a directory when it is one, else a file.
pub fn path_source(path: PathBuf, is_dir: bool) -> (s: PathSource)
    ensures
        is_dir ==> s == PathSource::Dir(path),
        !is_dir ==> s == PathSource::File(path),
{
    if is_dir {
        PathSource::Dir(path)
    } else {
        PathSource::File(path)
    }
}

/// Where a menu choice sends the reading of sources.
#[derive(Clone, Copy, PartialEq, Eq, Structural, Debug)]
pub enum SourceChoice {
    /// Every `.txt` file of the default directory.
    AllFiles,
    /// One file of the default directory, to be picked from a list.
    PickFile,
    /// The file at this position of the directory listing.
    FileAt(usize),
    /// A path the user types.
    CustomPath,
}

/// The input-source menu: all files, one file picked from the `n_files` of
/// the input directory (all files when there is none), or a typed path;
/// positions past the menu mean all files.
pub fn input_source_choice(choice: usize, n_files: usize) -> (c: SourceChoice)
    ensures
        c == match choice {
            1 => if n_files == 0 {
                SourceChoice::AllFiles
            } else {
                SourceChoice::PickFile
            },
            2 => SourceChoice::CustomPath,
            _ => SourceChoice::AllFiles,
        },
{
    match choice {
        1 => if n_files == 0 {
            SourceChoice::AllFiles
        } else {
            SourceChoice::PickFile
        },
        2 => SourceChoice::CustomPath,
        _ => SourceChoice::AllFiles,
    }
}

/// The known-words menu lists "all files", then the `n_files` files, then
/// "custom path": the choice at each position.
pub fn known_words_source_choice(choice: usize, n_files: usize) -> (c: SourceChoice)
    requires
        choice <= n_files + 1,
    ensures
        choice == 0 ==> c == SourceChoice::AllFiles,
        choice == n_files + 1 ==> c == SourceChoice::CustomPath,
        0 < choice <= n_files ==> c == SourceChoice::FileAt((choice - 1) as usize),
{
    if choice == 0 {
        SourceChoice::AllFiles
    } else if choice - 1 == n_files {
        SourceChoice::CustomPath
    } else {
        SourceChoice::FileAt(choice - 1)
    }
}

} // verus!
