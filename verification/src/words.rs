//! Words as the dictionary gives them back: known-word sets, translations
//! grouped by language, and the rows of the vocabulary file.
use vstd::prelude::*;
use crate::text::{
    chars_of, contains_string, extend_chars, join, join_with, pairs_view, string_of, strings_view,
};
use crate::word_set::WordSet;

verus! {

/// Every form of the given (word, reading) rows: both the word and its
/// reading.
pub open spec fn row_forms(rows: Seq<(Seq<char>, Seq<char>)>) -> Set<Seq<char>>
    decreases rows.len(),
{
    if rows.len() == 0 {
        Set::empty()
    } else {
        row_forms(rows.drop_last()).insert(rows.last().0).insert(rows.last().1)
    }
}

/// The known words as one set of both their kanji and their kana forms, so
/// that one membership test covers any form of a word.
pub fn load_known_words(rows: &Vec<(String, String)>) -> (known: WordSet)
    ensures
        known.view() == row_forms(pairs_view(rows@)),
{
    let ghost rv = pairs_view(rows@);
    let mut known = WordSet::new();
    for i in 0..rows.len()
        invariant
            rv == pairs_view(rows@),
            known.view() == row_forms(rv.take(i as int)),
    {
        assert(rv.take(i + 1).drop_last() == rv.take(i as int));
        assert(rv.take(i + 1).last() == (rows@[i as int].0@, rows@[i as int].1@));
        known.insert(rows[i].0.as_str());
        known.insert(rows[i].1.as_str());
    }
    assert(rv.take(rows.len() as int) == rv);
    known
}

/// The meanings of `glosses` in language `lang`, in order.
pub open spec fn meanings_in(glosses: Seq<(Seq<char>, Seq<char>)>, lang: Seq<char>) -> Seq<Seq<char>>
    decreases glosses.len(),
{
    if glosses.len() == 0 {
        seq![]
    } else {
        let prev = meanings_in(glosses.drop_last(), lang);
        if glosses.last().0 == lang {
            prev.push(glosses.last().1)
        } else {
            prev
        }
    }
}

/// The requested languages that occur among `glosses`, in order of first
/// occurrence.
pub open spec fn languages_found(glosses: Seq<(Seq<char>, Seq<char>)>, requested: Seq<Seq<char>>) -> Seq<
    Seq<char>,
>
    decreases glosses.len(),
{
    if glosses.len() == 0 {
        seq![]
    } else {
        let prev = languages_found(glosses.drop_last(), requested);
        let l = glosses.last().0;
        if requested.contains(l) && !prev.contains(l) {
            prev.push(l)
        } else {
            prev
        }
    }
}

/// Translations as (language, meanings) pairs, as characters.
pub open spec fn translations_view(t: Seq<(String, Vec<String>)>) -> Seq<(Seq<char>, Seq<Seq<char>>)> {
    t.map_values(|p: (String, Vec<String>)| (p.0@, strings_view(p.1@)))
}

/// The translations of `glosses` in the requested languages: for each such
/// language that occurs, in order of first occurrence, its meanings in order.
pub open spec fn grouped(glosses: Seq<(Seq<char>, Seq<char>)>, requested: Seq<Seq<char>>) -> Seq<
    (Seq<char>, Seq<Seq<char>>),
> {
    let ls = languages_found(glosses, requested);
    Seq::new(ls.len(), |k: int| (ls[k], meanings_in(glosses, ls[k])))
}

/// The meanings of `glosses` in language `lang`.
fn meanings_of(glosses: &Vec<(String, String)>, lang: &String) -> (out: Vec<String>)
    ensures
        strings_view(out@) == meanings_in(pairs_view(glosses@), lang@),
{
    let ghost gv = pairs_view(glosses@);
    let mut out: Vec<String> = Vec::new();
    for i in 0..glosses.len()
        invariant
            gv == pairs_view(glosses@),
            strings_view(out@) == meanings_in(gv.take(i as int), lang@),
    {
        assert(gv.take(i + 1).drop_last() == gv.take(i as int));
        assert(gv.take(i + 1).last() == (glosses@[i as int].0@, glosses@[i as int].1@));
        if glosses[i].0 == *lang {
            let ghost before = out@;
            out.push(glosses[i].1.clone());
            assert(strings_view(out@) =~= strings_view(before).push(glosses@[i as int].1@));
        }
    }
    assert(gv.take(glosses.len() as int) == gv);
    out
}


/// The glosses of `glosses` in language `l`.
pub open spec fn glosses_in_language(glosses: Seq<(Seq<char>, Seq<char>)>, l: Seq<char>) -> Seq<
    (Seq<char>, Seq<char>),
> {
    glosses.filter(|g: (Seq<char>, Seq<char>)| g.0 == l)
}

proof fn lemma_meanings_are_filtered(glosses: Seq<(Seq<char>, Seq<char>)>, l: Seq<char>)
    ensures
        meanings_in(glosses, l) == glosses_in_language(glosses, l).map_values(
            |g: (Seq<char>, Seq<char>)| g.1,
        ),
    decreases glosses.len(),
{
    reveal_with_fuel(Seq::<_>::filter, 1);
    if glosses.len() > 0 {
        lemma_meanings_are_filtered(glosses.drop_last(), l);
        let prev = glosses_in_language(glosses.drop_last(), l);
        if glosses.last().0 == l {
            assert(glosses_in_language(glosses, l) == prev.push(glosses.last()));
            assert(prev.push(glosses.last()).map_values(|g: (Seq<char>, Seq<char>)| g.1)
                =~= prev.map_values(|g: (Seq<char>, Seq<char>)| g.1).push(glosses.last().1));
        } else {
            assert(glosses_in_language(glosses, l) == prev);
        }
    } else {
        assert(glosses_in_language(glosses, l) =~= Seq::<(Seq<char>, Seq<char>)>::empty());
        assert(glosses_in_language(glosses, l).map_values(|g: (Seq<char>, Seq<char>)| g.1)
            =~= Seq::<Seq<char>>::empty());
    }
}

/// No gloss of a grouped language is lost: the meanings listed for a
/// language are exactly the meanings of the glosses in that language, in
/// their order, as many as there are such glosses.
pub proof fn lemma_grouped_keeps_every_gloss(
    glosses: Seq<(Seq<char>, Seq<char>)>,
    requested: Seq<Seq<char>>,
)
    ensures
        forall|k: int|
            0 <= k < grouped(glosses, requested).len() ==> {
                let l = (#[trigger] grouped(glosses, requested)[k]).0;
                &&& grouped(glosses, requested)[k].1 == glosses_in_language(glosses, l).map_values(
                    |g: (Seq<char>, Seq<char>)| g.1,
                )
                &&& grouped(glosses, requested)[k].1.len() == glosses_in_language(glosses, l).len()
            },
{
    assert forall|k: int| 0 <= k < grouped(glosses, requested).len() implies {
        let l = (#[trigger] grouped(glosses, requested)[k]).0;
        &&& grouped(glosses, requested)[k].1 == glosses_in_language(glosses, l).map_values(
            |g: (Seq<char>, Seq<char>)| g.1,
        )
        &&& grouped(glosses, requested)[k].1.len() == glosses_in_language(glosses, l).len()
    } by {
        let l = grouped(glosses, requested)[k].0;
        lemma_meanings_are_filtered(glosses, l);
    }
}

/// Groups the gloss rows of a word (language, meaning) by language, keeping
/// only the requested languages.
pub fn group_translations(glosses: &Vec<(String, String)>, languages: &Vec<String>) -> (out: Vec<
    (String, Vec<String>),
>)
    ensures
        translations_view(out@) == grouped(pairs_view(glosses@), strings_view(languages@)),
        forall|k: int|
            0 <= k < out@.len() ==> strings_view((#[trigger] out@[k]).1@) == glosses_in_language(
                pairs_view(glosses@),
                out@[k].0@,
            ).map_values(|g: (Seq<char>, Seq<char>)| g.1),
{
    let ghost gv = pairs_view(glosses@);
    let ghost req = strings_view(languages@);
    let mut found: Vec<String> = Vec::new();
    for i in 0..glosses.len()
        invariant
            gv == pairs_view(glosses@),
            req == strings_view(languages@),
            strings_view(found@) == languages_found(gv.take(i as int), req),
    {
        assert(gv.take(i + 1).drop_last() == gv.take(i as int));
        assert(gv.take(i + 1).last() == (glosses@[i as int].0@, glosses@[i as int].1@));
        let l = &glosses[i].0;
        if contains_string(languages, l) && !contains_string(&found, l) {
            let ghost before = found@;
            found.push(l.clone());
            assert(strings_view(found@) =~= strings_view(before).push(l@));
        }
    }
    assert(gv.take(glosses.len() as int) == gv);
    let ghost ls = languages_found(gv, req);
    let mut out: Vec<(String, Vec<String>)> = Vec::new();
    for k in 0..found.len()
        invariant
            gv == pairs_view(glosses@),
            ls == strings_view(found@),
            out@.len() == k,
            forall|j: int|
                0 <= j < k ==> #[trigger] translations_view(out@)[j] == (ls[j], meanings_in(gv, ls[j])),
    {
        let ms = meanings_of(glosses, &found[k]);
        let ghost before = out@;
        out.push((found[k].clone(), ms));
        assert forall|j: int| 0 <= j < k + 1 implies #[trigger] translations_view(out@)[j] == (
            ls[j],
            meanings_in(gv, ls[j]),
        ) by {
            if j < k {
                assert(translations_view(out@)[j] == translations_view(before)[j]);
            }
        }
    }
    assert(translations_view(out@) =~= grouped(gv, req));
    proof {
        lemma_grouped_keeps_every_gloss(gv, req);
        assert forall|k: int| 0 <= k < out@.len() implies strings_view((#[trigger] out@[k]).1@)
            == glosses_in_language(gv, out@[k].0@).map_values(|g: (Seq<char>, Seq<char>)| g.1) by {
            assert(translations_view(out@)[k] == grouped(gv, req)[k]);
        }
    }
    out
}

/// A word to learn: the lemma, its reading in hiragana, and its translations
/// by language.
pub struct WordEntry {
    pub lemma: String,
    pub word_kana: String,
    pub translations: Vec<(String, Vec<String>)>,
}

/// The entry for a lemma: when the dictionary has it, its reading and its
/// glosses grouped by the requested languages; otherwise an empty reading
/// and no translations.
pub fn build_word_entry(
    lemma: &str,
    found: Option<(String, Vec<(String, String)>)>,
    languages: &Vec<String>,
) -> (e: WordEntry)
    ensures
        e.lemma@ == lemma@,
        match found {
            Some((kana, glosses)) => {
                &&& e.word_kana@ == kana@
                &&& translations_view(e.translations@) == grouped(
                    pairs_view(glosses@),
                    strings_view(languages@),
                )
            },
            None => e.word_kana@.len() == 0 && e.translations@.len() == 0,
        },
{
    match found {
        Some((kana, glosses)) => {
            let translations = group_translations(&glosses, languages);
            WordEntry { lemma: lemma.to_string(), word_kana: kana, translations }
        },
        None => WordEntry {
            lemma: lemma.to_string(),
            word_kana: String::new(),
            translations: Vec::new(),
        },
    }
}

/// The header line of the vocabulary file.
pub const VOCAB_CSV_HEADER: &'static str = "word|hiragana|translation_german|translation_english|example_sentence";

/// The meanings an entry has in `lang` (none when it has no translation in it).
pub open spec fn meanings_for(t: Seq<(Seq<char>, Seq<Seq<char>>)>, lang: Seq<char>) -> Seq<Seq<char>>
    decreases t.len(),
{
    if t.len() == 0 {
        seq![]
    } else if t[0].0 == lang {
        t[0].1
    } else {
        meanings_for(t.drop_first(), lang)
    }
}

/// A row of the vocabulary file: word, reading, German and English meanings
/// (each joined with `;`), and an empty example sentence, separated by `|`.
pub open spec fn vocab_row(e: WordEntry) -> Seq<char> {
    let t = translations_view(e.translations@);
    e.lemma@ + "|"@ + e.word_kana@ + "|"@ + join_with(meanings_for(t, "de"@), ";"@) + "|"@
        + join_with(meanings_for(t, "en"@), ";"@) + "|"@
}


proof fn lemma_meanings_for_absent(t: Seq<(Seq<char>, Seq<Seq<char>>)>, l: Seq<char>)
    requires
        forall|k: int| 0 <= k < t.len() ==> (#[trigger] t[k]).0 != l,
    ensures
        meanings_for(t, l) == Seq::<Seq<char>>::empty(),
    decreases t.len(),
{
    if t.len() > 0 {
        assert(t[0].0 != l);
        assert forall|k: int| 0 <= k < t.drop_first().len() implies (#[trigger] t.drop_first()[k]).0 != l by {
            assert(t.drop_first()[k] == t[k + 1]);
        }
        lemma_meanings_for_absent(t.drop_first(), l);
    }
}

proof fn lemma_meanings_for_first(t: Seq<(Seq<char>, Seq<Seq<char>>)>, l: Seq<char>, k: int)
    requires
        0 <= k < t.len(),
        t[k].0 == l,
        forall|j: int| 0 <= j < k ==> (#[trigger] t[j]).0 != l,
    ensures
        meanings_for(t, l) == t[k].1,
    decreases k,
{
    if k > 0 {
        assert(t[0].0 != l);
        assert forall|j: int| 0 <= j < k - 1 implies (#[trigger] t.drop_first()[j]).0 != l by {
            assert(t.drop_first()[j] == t[j + 1]);
        }
        assert(t.drop_first()[k - 1] == t[k]);
        lemma_meanings_for_first(t.drop_first(), l, k - 1);
    }
}

/// The German column of a row holds the German meanings and nothing else:
/// it is empty when the entry has no German translation, and otherwise it is
/// the meanings of its German translation joined with `;`.
pub proof fn lemma_vocab_row_german_column(e: WordEntry)
    ensures
        ({
            let t = translations_view(e.translations@);
            let prefix = e.lemma@ + "|"@ + e.word_kana@ + "|"@;
            &&& (forall|k: int| 0 <= k < t.len() ==> (#[trigger] t[k]).0 != "de"@) ==> exists|
                rest: Seq<char>,
            | vocab_row(e) == prefix + "|"@ + rest
            &&& forall|k: int|
                0 <= k < t.len() && (#[trigger] t[k]).0 == "de"@ && (forall|j: int|
                    0 <= j < k ==> t[j].0 != "de"@) ==> exists|rest: Seq<char>|
                    vocab_row(e) == prefix + join_with(t[k].1, ";"@) + "|"@ + rest
        }),
{
    let t = translations_view(e.translations@);
    let prefix = e.lemma@ + "|"@ + e.word_kana@ + "|"@;
    let rest = join_with(meanings_for(t, "en"@), ";"@) + "|"@;
    if forall|k: int| 0 <= k < t.len() ==> (#[trigger] t[k]).0 != "de"@ {
        lemma_meanings_for_absent(t, "de"@);
        assert(join_with(meanings_for(t, "de"@), ";"@) == Seq::<char>::empty());
        assert(vocab_row(e) =~= prefix + "|"@ + rest);
    }
    assert forall|k: int|
        0 <= k < t.len() && (#[trigger] t[k]).0 == "de"@ && (forall|j: int|
            0 <= j < k ==> t[j].0 != "de"@) implies exists|rest: Seq<char>|
        vocab_row(e) == prefix + join_with(t[k].1, ";"@) + "|"@ + rest by {
        lemma_meanings_for_first(t, "de"@, k);
        assert(vocab_row(e) =~= prefix + join_with(t[k].1, ";"@) + "|"@ + rest);
    }
}

fn translation_list(translations: &Vec<(String, Vec<String>)>, lang: &str) -> (out: Vec<String>)
    ensures
        strings_view(out@) == meanings_for(translations_view(translations@), lang@),
{
    let ghost tv = translations_view(translations@);
    let l = lang.to_string();
    let mut i: usize = 0;
    assert(tv.skip(0) == tv);
    while i < translations.len()
        invariant
            i <= translations@.len(),
            tv == translations_view(translations@),
            l@ == lang@,
            meanings_for(tv.skip(i as int), lang@) == meanings_for(tv, lang@),
        decreases translations@.len() - i,
    {
        assert(tv.skip(i as int)[0] == (translations@[i as int].0@, strings_view(translations@[i as int].1@)));
        if translations[i].0 == l {
            let ms = translations[i].1.clone();
            assert(strings_view(ms@) =~= strings_view(translations@[i as int].1@)) by {
                assert forall|k: int| 0 <= k < ms@.len() implies ms@[k]@ == translations@[i as int].1@[k]@ by {
                    assert(cloned::<String>(translations@[i as int].1@[k], ms@[k]));
                }
            }
            return ms;
        }
        assert(tv.skip(i as int).drop_first() == tv.skip(i + 1));
        i += 1;
    }
    assert(tv.skip(i as int).len() == 0);
    Vec::new()
}

/// The row of the vocabulary file for an entry.
pub fn vocab_csv_row(entry: &WordEntry) -> (row: String)
    ensures
        row@ == vocab_row(*entry),
{
    let bar = chars_of("|");
    let de = join(&translation_list(&entry.translations, "de"), ";");
    let en = join(&translation_list(&entry.translations, "en"), ";");
    let mut out: Vec<char> = Vec::new();
    extend_chars(&mut out, &chars_of(entry.lemma.as_str()));
    extend_chars(&mut out, &bar);
    extend_chars(&mut out, &chars_of(entry.word_kana.as_str()));
    extend_chars(&mut out, &bar);
    extend_chars(&mut out, &chars_of(de.as_str()));
    extend_chars(&mut out, &bar);
    extend_chars(&mut out, &chars_of(en.as_str()));
    extend_chars(&mut out, &bar);
    string_of(&out)
}

} // verus!
