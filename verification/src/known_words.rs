//! Known words from Anki exports: field cleaning and line selection.
use vstd::prelude::*;
use crate::text::{
    chars_of, extend_chars, find_char, find_from, lemma_find_from_bound, next_line, spec_lines,
    spec_split, spec_trim, split, string_of, sub_vec, trim,
};
use crate::word_set::WordSet;

verus! {

/// Hiragana and Katakana (with the long-vowel mark), the CJK Unified
/// Ideographs and CJK Extension A.
pub open spec fn spec_is_japanese(c: char) -> bool {
    ||| ('\u{3040}' <= c && c <= '\u{30FF}')
    ||| ('\u{4E00}' <= c && c <= '\u{9FFF}')
    ||| ('\u{3400}' <= c && c <= '\u{4DBF}')
}

pub fn is_japanese(c: char) -> (b: bool)
    ensures
        b == spec_is_japanese(c),
{
    ('\u{3040}' <= c && c <= '\u{30FF}') || ('\u{4E00}' <= c && c <= '\u{9FFF}') || ('\u{3400}'
        <= c && c <= '\u{4DBF}')
}

/// The Japanese characters of `s`, in order.
pub open spec fn keep_japanese(s: Seq<char>) -> Seq<char>
    decreases s.len(),
{
    if s.len() == 0 {
        seq![]
    } else if spec_is_japanese(s.last()) {
        keep_japanese(s.drop_last()).push(s.last())
    } else {
        keep_japanese(s.drop_last())
    }
}

/// Index just past the bracket that closes the one opened before position `i`,
/// with `depth` brackets still open: the index of that closing bracket, or
/// `s.len()` when the text ends first.
pub open spec fn closing_index(s: Seq<char>, open: char, close: char, i: nat, depth: nat) -> nat
    decreases s.len() - i,
{
    if i >= s.len() {
        s.len()
    } else if s[i as int] == open {
        closing_index(s, open, close, i + 1, depth + 1)
    } else if s[i as int] == close {
        if depth <= 1 {
            i
        } else {
            closing_index(s, open, close, i + 1, (depth - 1) as nat)
        }
    } else {
        closing_index(s, open, close, i + 1, depth)
    }
}

pub proof fn lemma_closing_index_bounds(s: Seq<char>, open: char, close: char, i: nat, depth: nat)
    requires
        i <= s.len(),
    ensures
        i <= closing_index(s, open, close, i, depth) <= s.len(),
    decreases s.len() - i,
{
    if i < s.len() {
        lemma_closing_index_bounds(s, open, close, i + 1, depth + 1);
        lemma_closing_index_bounds(s, open, close, i + 1, depth);
        if depth > 1 {
            lemma_closing_index_bounds(s, open, close, i + 1, (depth - 1) as nat);
        }
    }
}

/// What follows the closing bracket at `e`, or nothing when the text ended first.
pub open spec fn after_close(s: Seq<char>, e: nat) -> Seq<char> {
    if e < s.len() {
        s.skip(e + 1 as int)
    } else {
        seq![]
    }
}

/// The text before the first `c` (all of it when there is none).
pub open spec fn before_first(s: Seq<char>, c: char) -> Seq<char> {
    s.take(find_from(s, c, 0) as int)
}

/// The field with its markup resolved, before non-Japanese characters are dropped:
/// `{A;x}` gives the cleaned `A`, `[A|B]` gives the cleaned `A`, `[x]` without a
/// pipe and `(x)` give nothing, and any other character stands for itself.
pub open spec fn resolve_markup(s: Seq<char>) -> Seq<char>
    decreases s.len(),
{
    if s.len() == 0 {
        seq![]
    } else {
        let c = s[0];
        if c == '{' || c == '[' || c == '(' {
            let close = if c == '{' {
                '}'
            } else if c == '[' {
                ']'
            } else {
                ')'
            };
            let e = closing_index(s, c, close, 1, 1);
            proof {
                lemma_closing_index_bounds(s, c, close, 1, 1);
            }
            let inner = s.subrange(1, e as int);
            proof {
                lemma_find_from_bound(inner, ';', 0);
                lemma_find_from_bound(inner, '|', 0);
            }
            let kept = if c == '{' {
                keep_japanese(resolve_markup(before_first(inner, ';')))
            } else if c == '[' && find_from(inner, '|', 0) < inner.len() {
                keep_japanese(resolve_markup(before_first(inner, '|')))
            } else {
                seq![]
            };
            kept + resolve_markup(after_close(s, e))
        } else {
            seq![c] + resolve_markup(s.drop_first())
        }
    }
}

/// A field of an Anki export reduced to the word it holds.
pub open spec fn spec_clean_field(s: Seq<char>) -> Seq<char> {
    keep_japanese(resolve_markup(s))
}

pub proof fn lemma_keep_japanese_only(s: Seq<char>)
    ensures
        forall|i: int|
            0 <= i < keep_japanese(s).len() ==> spec_is_japanese(#[trigger] keep_japanese(s)[i]),
        keep_japanese(s).len() <= s.len(),
    decreases s.len(),
{
    if s.len() > 0 {
        lemma_keep_japanese_only(s.drop_last());
    }
}

pub proof fn lemma_keep_japanese_all(s: Seq<char>)
    requires
        forall|i: int| 0 <= i < s.len() ==> spec_is_japanese(#[trigger] s[i]),
    ensures
        keep_japanese(s) == s,
    decreases s.len(),
{
    if s.len() > 0 {
        lemma_keep_japanese_all(s.drop_last());
        assert(s.drop_last().push(s.last()) == s);
    }
}

/// Keeps the Japanese characters of `s`.
fn keep_japanese_chars(s: &Vec<char>) -> (out: Vec<char>)
    ensures
        out@ == keep_japanese(s@),
{
    let mut out: Vec<char> = Vec::new();
    for i in 0..s.len()
        invariant
            out@ == keep_japanese(s@.take(i as int)),
    {
        assert(s@.take(i + 1).drop_last() == s@.take(i as int));
        if is_japanese(s[i]) {
            out.push(s[i]);
        }
    }
    assert(s@.take(s.len() as int) == s@);
    out
}

/// Reads the bracketed text that starts at `s[i]` (the opening bracket):
/// returns what stands between the brackets and the index of the closing one
/// (`s.len()` when the text ends first).
fn read_bracketed(s: &Vec<char>, i: usize, open: char, close: char) -> (res: (Vec<char>, usize))
    requires
        i < s.len(),
    ensures
        ({
            let t = s@.skip(i as int);
            let e = closing_index(t, open, close, 1, 1);
            &&& res.1 == i + e
            &&& res.0@ == t.subrange(1, e as int)
        }),
{
    let ghost t = s@.skip(i as int);
    let mut inner: Vec<char> = Vec::new();
    let mut depth: usize = 1;
    let mut j = i + 1;
    proof {
        lemma_closing_index_bounds(t, open, close, 1, 1);
    }
    while j < s.len()
        invariant
            i < j <= s.len(),
            t == s@.skip(i as int),
            1 <= depth <= j - i,
            closing_index(t, open, close, (j - i) as nat, depth as nat) == closing_index(
                t,
                open,
                close,
                1,
                1,
            ),
            inner@ == t.subrange(1, j - i),
        decreases s.len() - j,
    {
        let c = s[j];
        assert(t[j - i] == c);
        if c == open {
            depth += 1;
        } else if c == close {
            if depth == 1 {
                return (inner, j);
            }
            depth -= 1;
        }
        inner.push(c);
        assert(t.subrange(1, j - i + 1) == t.subrange(1, j - i).push(c));
        j += 1;
    }
    (inner, j)
}

/// The text before the first `c`.
fn chars_before(s: &Vec<char>, c: char) -> (out: Vec<char>)
    ensures
        out@ == before_first(s@, c),
{
    let p = find_char(s, c, 0);
    sub_vec(s, 0, p)
}

/// `resolve_markup` on the characters of `s`.
fn resolve_chars(s: &Vec<char>) -> (out: Vec<char>)
    ensures
        out@ == resolve_markup(s@),
    decreases s@.len(),
{
    let n = s.len();
    let mut out: Vec<char> = Vec::new();
    let mut i: usize = 0;
    assert(s@.skip(0) == s@);
    while i < n
        invariant
            i <= n == s.len(),
            out@ + resolve_markup(s@.skip(i as int)) == resolve_markup(s@),
        decreases n - i,
    {
        let ghost t = s@.skip(i as int);
        let c = s[i];
        if c == '{' || c == '[' || c == '(' {
            let close = if c == '{' {
                '}'
            } else if c == '[' {
                ']'
            } else {
                ')'
            };
            let (inner, e) = read_bracketed(s, i, c, close);
            proof {
                lemma_closing_index_bounds(t, c, close, 1, 1);
            }
            let ghost et = (e - i) as nat;
            if c == '{' {
                let content = chars_before(&inner, ';');
                proof {
                    lemma_find_from_bound(inner@, ';', 0);
                }
                let cleaned = keep_japanese_chars(&resolve_chars(&content));
                extend_chars(&mut out, &cleaned);
            } else if c == '[' {
                let p = find_char(&inner, '|', 0);
                if p < inner.len() {
                    let content = sub_vec(&inner, 0, p);
                    let cleaned = keep_japanese_chars(&resolve_chars(&content));
                    extend_chars(&mut out, &cleaned);
                }
            }
            if e < n {
                assert(t.skip(et + 1 as int) == s@.skip(e + 1));
                i = e + 1;
            } else {
                assert(s@.skip(n as int) == Seq::<char>::empty());
                i = n;
            }
        } else {
            out.push(c);
            assert(t.drop_first() == s@.skip(i + 1));
            i += 1;
        }
    }
    assert(s@.skip(n as int) == Seq::<char>::empty());
    assert(out@ + Seq::<char>::empty() == out@);
    out
}

/// Strips Anki pitch and furigana notation from a field and keeps only its
/// Japanese characters: `{[護衛|ごえい];0}` gives `護衛`, `{ずばり;2}` gives
/// `ずばり`, `地理[ちり;a]` gives `地理`, `わたし[;h]` gives `わたし`.
pub fn clean_field(s: &str) -> (out: String)
    ensures
        out@ == spec_clean_field(s@),
        forall|i: int| 0 <= i < out@.len() ==> spec_is_japanese(#[trigger] out@[i]),
{
    let cs = chars_of(s);
    let cleaned = keep_japanese_chars(&resolve_chars(&cs));
    proof {
        lemma_keep_japanese_only(resolve_markup(s@));
    }
    string_of(&cleaned)
}


/// A field of only Japanese characters is already clean.
pub proof fn lemma_clean_field_keeps_plain_words(s: Seq<char>)
    requires
        forall|i: int| 0 <= i < s.len() ==> spec_is_japanese(#[trigger] s[i]),
    ensures
        spec_clean_field(s) == s,
{
    lemma_resolve_plain(s);
    lemma_keep_japanese_all(s);
}

proof fn lemma_resolve_plain(s: Seq<char>)
    requires
        forall|i: int| 0 <= i < s.len() ==> spec_is_japanese(#[trigger] s[i]),
    ensures
        resolve_markup(s) == s,
    decreases s.len(),
{
    if s.len() > 0 {
        assert(spec_is_japanese(s[0]));
        assert forall|i: int| 0 <= i < s.drop_first().len() implies spec_is_japanese(
            #[trigger] s.drop_first()[i],
        ) by {
            assert(s.drop_first()[i] == s[i + 1]);
        }
        lemma_resolve_plain(s.drop_first());
        assert(seq![s[0]] + s.drop_first() == s);
    }
}

/// Cleaning a cleaned field changes nothing.
pub proof fn lemma_clean_field_idempotent(s: Seq<char>)
    ensures
        spec_clean_field(spec_clean_field(s)) == spec_clean_field(s),
{
    lemma_keep_japanese_only(resolve_markup(s));
    lemma_clean_field_keeps_plain_words(spec_clean_field(s));
}


/// Text without any markup character (braces, brackets, parentheses, `|`).
pub open spec fn no_markup(s: Seq<char>) -> bool {
    forall|i: int|
        0 <= i < s.len() ==> {
            let c = #[trigger] s[i];
            c != '{' && c != '}' && c != '[' && c != ']' && c != '(' && c != ')' && c != '|'
        }
}

proof fn lemma_resolve_plain_prefix(a: Seq<char>, t: Seq<char>)
    requires
        no_markup(a),
    ensures
        resolve_markup(a + t) == a + resolve_markup(t),
    decreases a.len(),
{
    if a.len() > 0 {
        let at = a + t;
        assert(at[0] == a[0]);
        assert(at.drop_first() == a.drop_first() + t);
        assert forall|i: int| 0 <= i < a.drop_first().len() implies {
            let c = #[trigger] a.drop_first()[i];
            c != '{' && c != '}' && c != '[' && c != ']' && c != '(' && c != ')' && c != '|'
        } by {
            assert(a.drop_first()[i] == a[i + 1]);
        }
        lemma_resolve_plain_prefix(a.drop_first(), t);
        assert(seq![a[0]] + (a.drop_first() + resolve_markup(t)) == a + resolve_markup(t));
    } else {
        assert(a + t == t);
        assert(a + resolve_markup(t) == resolve_markup(t));
    }
}

proof fn lemma_keep_japanese_concat(a: Seq<char>, b: Seq<char>)
    ensures
        keep_japanese(a + b) == keep_japanese(a) + keep_japanese(b),
    decreases b.len(),
{
    if b.len() > 0 {
        lemma_keep_japanese_concat(a, b.drop_last());
        assert((a + b).drop_last() == a + b.drop_last());
        assert((a + b).last() == b.last());
    } else {
        assert(a + b == a);
        assert(keep_japanese(a) + keep_japanese(b) == keep_japanese(a));
    }
}

/// In `t`, which opens a bracket at 0 and closes it at `m` with neither
/// bracket character in between, the bracket opened at 0 closes at `m`.
proof fn lemma_closes_at(t: Seq<char>, open: char, close: char, i: nat, m: nat)
    requires
        1 <= i <= m < t.len(),
        open != close,
        t[m as int] == close,
        forall|j: int| 1 <= j < m ==> t[j] != open && t[j] != close,
    ensures
        closing_index(t, open, close, i, 1) == m,
    decreases m - i,
{
    if i < m {
        assert(t[i as int] != open && t[i as int] != close);
        lemma_closes_at(t, open, close, i + 1, m);
    }
}

/// A bracket group `[inner]` followed by `b` resolves to what its inner text
/// keeps, followed by `b` resolved.
proof fn lemma_bracket_group(inner: Seq<char>, b: Seq<char>)
    requires
        forall|j: int| 0 <= j < inner.len() ==> inner[j] != '[' && inner[j] != ']',
    ensures
        ({
            let t = seq!['['] + inner + seq![']'] + b;
            let kept = if find_from(inner, '|', 0) < inner.len() {
                keep_japanese(resolve_markup(before_first(inner, '|')))
            } else {
                seq![]
            };
            resolve_markup(t) == kept + resolve_markup(b)
        }),
{
    let t = seq!['['] + inner + seq![']'] + b;
    let m = inner.len() + 1;
    assert forall|j: int| 1 <= j < m implies t[j] != '[' && t[j] != ']' by {
        assert(t[j] == inner[j - 1]);
    }
    assert(t[m as int] == ']');
    lemma_closes_at(t, '[', ']', 1, m as nat);
    assert(t.subrange(1, m as int) == inner);
    assert(t.skip(m + 1 as int) == b);
    assert(t[0] == '[');
}

/// Text after a bracket without a pipe is kept: the bracket and what it holds
/// are dropped, the rest of the field is cleaned as if they were not there.
pub proof fn lemma_clean_field_drops_only_the_bracket(a: Seq<char>, x: Seq<char>, b: Seq<char>)
    requires
        no_markup(a),
        no_markup(x),
    ensures
        spec_clean_field(a + seq!['['] + x + seq![']'] + b) == spec_clean_field(a + b),
{
    assert forall|j: int| 0 <= j < x.len() implies x[j] != '[' && x[j] != ']' by {
        assert(no_markup(x) ==> x[j] != '[');
    }
    lemma_find_from_bound(x, '|', 0);
    if find_from(x, '|', 0) < x.len() {
        assert(x[find_from(x, '|', 0) as int] == '|');
    }
    lemma_bracket_group(x, b);
    assert(a + seq!['['] + x + seq![']'] + b == a + (seq!['['] + x + seq![']'] + b));
    lemma_resolve_plain_prefix(a, seq!['['] + x + seq![']'] + b);
    lemma_resolve_plain_prefix(a, b);
}

/// A furigana bracket `[A|B]` stands for the cleaned `A`, and the text after
/// it is kept.
pub proof fn lemma_clean_field_furigana(a: Seq<char>, x: Seq<char>, y: Seq<char>, b: Seq<char>)
    requires
        no_markup(a),
        no_markup(x),
        forall|j: int| 0 <= j < y.len() ==> y[j] != '[' && y[j] != ']',
    ensures
        spec_clean_field(a + seq!['['] + x + seq!['|'] + y + seq![']'] + b) == spec_clean_field(
            a + x + b,
        ),
{
    let inner = x + seq!['|'] + y;
    assert forall|j: int| 0 <= j < inner.len() implies inner[j] != '[' && inner[j] != ']' by {
        if j < x.len() {
            assert(inner[j] == x[j]);
        } else if j > x.len() {
            assert(inner[j] == y[j - x.len() - 1]);
        }
    }
    assert forall|j: int| 0 <= j < x.len() implies inner[j] != '|' by {
        assert(inner[j] == x[j]);
    }
    assert(inner[x.len() as int] == '|');
    crate::text::lemma_find_from(inner, '|', 0, x.len() as nat);
    assert(before_first(inner, '|') == x);
    lemma_bracket_group(inner, b);
    lemma_resolve_plain_prefix(x, seq![]);
    assert(x + seq![] == x);
    lemma_resolve_plain_prefix(x, b);
    lemma_keep_japanese_only(x);
    lemma_keep_japanese_all(keep_japanese(x));
    let t = seq!['['] + inner + seq![']'] + b;
    assert(a + seq!['['] + x + seq!['|'] + y + seq![']'] + b == a + t);
    lemma_resolve_plain_prefix(a, t);
    assert(a + x + b == a + (x + b));
    lemma_resolve_plain_prefix(a, x + b);
    lemma_keep_japanese_concat(a, keep_japanese(x) + resolve_markup(b));
    lemma_keep_japanese_concat(keep_japanese(x), resolve_markup(b));
    lemma_keep_japanese_concat(a, x + resolve_markup(b));
    lemma_keep_japanese_concat(x, resolve_markup(b));
}

/// A field that ends a complete bracket group cleans independently of what
/// follows: the cleaned `u + v` is the cleaned `u` followed by the cleaned `v`.
pub proof fn lemma_clean_field_after_group(a: Seq<char>, x: Seq<char>, v: Seq<char>)
    requires
        no_markup(a),
        no_markup(x),
    ensures
        spec_clean_field(a + seq!['['] + x + seq![']'] + v) == spec_clean_field(
            a + seq!['['] + x + seq![']'],
        ) + spec_clean_field(v),
{
    lemma_clean_field_drops_only_the_bracket(a, x, v);
    lemma_clean_field_drops_only_the_bracket(a, x, seq![]);
    assert(a + seq!['['] + x + seq![']'] + seq![] == a + seq!['['] + x + seq![']']);
    assert(a + seq![] == a);
    lemma_resolve_plain_prefix(a, v);
    lemma_resolve_plain_prefix(a, seq![]);
    assert(a + resolve_markup(seq![]) == a);
    lemma_keep_japanese_concat(a, resolve_markup(v));
}

/// The word a line of an Anki export holds in column `col`: none for a
/// comment line (starting with `#`), a blank line, a line without that
/// column, or a field that cleans to nothing.
pub open spec fn anki_line_word(line: Seq<char>, col: nat) -> Option<Seq<char>> {
    if (line.len() > 0 && line[0] == '#') || spec_trim(line).len() == 0 {
        None
    } else {
        let fields = spec_split(line, '\t');
        if col < fields.len() && spec_clean_field(fields[col as int]).len() > 0 {
            Some(spec_clean_field(fields[col as int]))
        } else {
            None
        }
    }
}

/// The words of the given lines of an Anki export, in order.
pub open spec fn anki_words(ls: Seq<Seq<char>>, col: nat) -> Seq<Seq<char>>
    decreases ls.len(),
{
    if ls.len() == 0 {
        seq![]
    } else {
        let prev = anki_words(ls.drop_last(), col);
        match anki_line_word(ls.last(), col) {
            Some(w) => prev.push(w),
            None => prev,
        }
    }
}

/// The word of one line of an Anki export.
fn line_word(line: &Vec<char>, col: usize) -> (res: Option<String>)
    ensures
        match res {
            Some(w) => anki_line_word(line@, col as nat) == Some(w@),
            None => anki_line_word(line@, col as nat) is None,
        },
{
    if (line.len() > 0 && line[0] == '#') || trim(line).len() == 0 {
        return None;
    }
    let fields = split(line, '\t');
    if col >= fields.len() {
        return None;
    }
    let field = string_of(&fields[col]);
    let word = clean_field(field.as_str());
    if chars_of(word.as_str()).len() == 0 {
        None
    } else {
        Some(word)
    }
}

/// The words of an Anki TSV export: for each line that is neither a comment
/// nor blank, the cleaned field in column `col` (0-based), when there is one
/// and it is not empty.
pub fn parse_anki_export(content: &str, col: usize) -> (words: Vec<String>)
    ensures
        words@.map_values(|w: String| w@) == anki_words(spec_lines(content@), col as nat),
{
    let cs = chars_of(content);
    let ghost all = spec_lines(content@);
    let ghost mut done: Seq<Seq<char>> = seq![];
    let mut words: Vec<String> = Vec::new();
    let mut start: usize = 0;
    assert(cs@.skip(0) == cs@);
    assert(words@.map_values(|w: String| w@) =~= anki_words(done, col as nat));
    while start < cs.len()
        invariant
            start <= cs.len(),
            cs@ == content@,
            all == spec_lines(content@),
            done + spec_lines(cs@.skip(start as int)) == all,
            words@.map_values(|w: String| w@) == anki_words(done, col as nat),
        decreases cs.len() - start,
    {
        let (line, next) = next_line(&cs, start);
        proof {
            assert(done.push(line@) + spec_lines(cs@.skip(next as int)) == done + (seq![line@]
                + spec_lines(cs@.skip(next as int))));
            assert(done.push(line@).drop_last() == done);
        }
        match line_word(&line, col) {
            Some(w) => {
                let ghost before = words@;
                words.push(w);
                assert(words@.map_values(|w: String| w@) =~= before.map_values(|w: String| w@).push(
                    w@,
                ));
            },
            None => {},
        }
        proof {
            done = done.push(line@);
        }
        start = next;
    }
    assert(cs@.skip(start as int).len() == 0);
    assert(done + seq![] == done);
    words
}

/// The dictionary forms that extend a set of known words: each form kept to
/// its Japanese characters, and only when some remain.
pub open spec fn form_set(forms: Seq<Seq<char>>) -> Set<Seq<char>>
    decreases forms.len(),
{
    if forms.len() == 0 {
        Set::empty()
    } else {
        let f = keep_japanese(forms.last());
        if f.len() > 0 {
            form_set(forms.drop_last()).insert(f)
        } else {
            form_set(forms.drop_last())
        }
    }
}

/// Adds the dictionary forms of known words (as the tokenizer gives them) to
/// the set, each kept to its Japanese characters and skipped when nothing
/// remains; returns how many forms were new.
pub fn add_dictionary_forms(words: &mut WordSet, forms: &Vec<String>) -> (added: usize)
    ensures
        final(words).view() == old(words).view().union(form_set(forms@.map_values(|f: String| f@))),
        final(words).ordered().len() == old(words).ordered().len() + added,
{
    let ghost fs = forms@.map_values(|f: String| f@);
    let mut added: usize = 0;
    for i in 0..forms.len()
        invariant
            fs == forms@.map_values(|f: String| f@),
            words.view() == old(words).view().union(form_set(fs.take(i as int))),
            words.ordered().len() == old(words).ordered().len() + added,
            added <= i,
    {
        assert(fs.take(i + 1).drop_last() == fs.take(i as int));
        assert(fs.take(i + 1).last() == fs[i as int]);
        let form = keep_japanese_chars(&chars_of(forms[i].as_str()));
        if form.len() > 0 {
            let new = words.insert_chars(form);
            if new {
                added += 1;
            }
            assert(words.view() =~= old(words).view().union(form_set(fs.take(i + 1))));
        } else {
            assert(form_set(fs.take(i + 1)) == form_set(fs.take(i as int)));
        }
    }
    assert(fs.take(forms.len() as int) == fs);
    added
}
} // verus!
