//! Character-level text handling: the parts of `str` that the rest of the
//! library relies on, each stated over the characters of the text.
use vstd::prelude::*;
use vstd::utf8::*;

verus! {

/// `String::push`: assumed to append the character to the end of the string,
/// as its documentation says.
pub assume_specification[ String::push ](s: &mut String, ch: char)
    ensures
        final(s)@ == old(s)@.push(ch),
;

/// `==` on string slices: assumed to hold exactly when the two hold the same
/// characters (std compares their contents).
pub assume_specification[ <str as PartialEq>::eq ](a: &str, b: &str) -> (res: bool)
    ensures
        res == (a@ == b@),
;

/// Decodes `bytes` as UTF-8 with `std::str::from_utf8`, as an owned string.
/// Assumed of the std function: it succeeds exactly on valid UTF-8, and the
/// characters it yields are the scalar values that the bytes encode.
#[verifier::external_body]
pub fn utf8_decode(bytes: &[u8]) -> (res: Option<String>)
    ensures
        res is Some <==> valid_utf8(bytes@),
        res matches Some(s) ==> s@ == decode_utf8(bytes@),
{
    match std::str::from_utf8(bytes) {
        Ok(s) => Some(s.to_string()),
        Err(_) => None,
    }
}

/// The characters of an optional string.
pub open spec fn opt_view(o: Option<String>) -> Option<Seq<char>> {
    match o {
        Some(s) => Some(s@),
        None => None,
    }
}

/// The pairs of strings, as characters.
pub open spec fn pairs_view(v: Seq<(String, String)>) -> Seq<(Seq<char>, Seq<char>)> {
    v.map_values(|p: (String, String)| (p.0@, p.1@))
}

/// The strings, as characters.
pub open spec fn strings_view(v: Seq<String>) -> Seq<Seq<char>> {
    v.map_values(|p: String| p@)
}

/// Whether `list` holds a string with the characters of `s`.
pub fn contains_string(list: &Vec<String>, s: &String) -> (b: bool)
    ensures
        b == strings_view(list@).contains(s@),
{
    let ghost vs = strings_view(list@);
    for i in 0..list.len()
        invariant
            vs == strings_view(list@),
            forall|k: int| 0 <= k < i ==> vs[k] != s@,
    {
        if list[i] == *s {
            assert(vs[i as int] == s@);
            return true;
        }
    }
    false
}

/// The characters of a string slice, in order.
pub fn chars_of(s: &str) -> (out: Vec<char>)
    ensures
        out@ == s@,
{
    let mut out: Vec<char> = Vec::new();
    for c in it: s.chars()
        invariant
            out@ == it.seq().take(it.index() as int),
    {
        out.push(c);
    }
    out
}

/// A string holding the given characters.
pub fn string_of(cs: &Vec<char>) -> (out: String)
    ensures
        out@ == cs@,
{
    let mut out = String::new();
    for i in 0..cs.len()
        invariant
            out@ == cs@.take(i as int),
    {
        out.push(cs[i]);
        assert(cs@.take(i + 1) == cs@.take(i as int).push(cs@[i as int]));
    }
    assert(cs@.take(cs.len() as int) == cs@);
    out
}

/// A copy of the elements of `v` in `lo..hi`.
pub fn sub_vec<T: Copy>(v: &Vec<T>, lo: usize, hi: usize) -> (out: Vec<T>)
    requires
        lo <= hi <= v.len(),
    ensures
        out@ == v@.subrange(lo as int, hi as int),
{
    let mut out: Vec<T> = Vec::new();
    let mut i = lo;
    while i < hi
        invariant
            lo <= i <= hi <= v.len(),
            out@ == v@.subrange(lo as int, i as int),
        decreases hi - i,
    {
        out.push(v[i]);
        assert(v@.subrange(lo as int, i + 1) == v@.subrange(lo as int, i as int).push(v@[i as int]));
        i += 1;
    }
    out
}

/// Appends all of `src` to `dst`.
pub fn extend_chars(dst: &mut Vec<char>, src: &Vec<char>)
    ensures
        final(dst)@ == old(dst)@ + src@,
{
    for i in 0..src.len()
        invariant
            dst@ == old(dst)@ + src@.take(i as int),
    {
        dst.push(src[i]);
        assert(src@.take(i + 1) == src@.take(i as int).push(src@[i as int]));
    }
    assert(src@.take(src.len() as int) == src@);
}

/// `char::is_whitespace`: the characters with the Unicode `White_Space` property.
pub open spec fn spec_is_whitespace(c: char) -> bool {
    ||| c == ' '
    ||| ('\u{9}' <= c && c <= '\u{d}')
    ||| c == '\u{85}'
    ||| c == '\u{a0}'
    ||| c == '\u{1680}'
    ||| ('\u{2000}' <= c && c <= '\u{200a}')
    ||| c == '\u{2028}'
    ||| c == '\u{2029}'
    ||| c == '\u{202f}'
    ||| c == '\u{205f}'
    ||| c == '\u{3000}'
}

pub fn is_whitespace(c: char) -> (b: bool)
    ensures
        b == spec_is_whitespace(c),
{
    c == ' ' || ('\u{9}' <= c && c <= '\u{d}') || c == '\u{85}' || c == '\u{a0}' || c == '\u{1680}'
        || ('\u{2000}' <= c && c <= '\u{200a}') || c == '\u{2028}' || c == '\u{2029}' || c
        == '\u{202f}' || c == '\u{205f}' || c == '\u{3000}'
}

/// `str::trim_start`.
pub open spec fn trim_start(s: Seq<char>) -> Seq<char>
    decreases s.len(),
{
    if s.len() > 0 && spec_is_whitespace(s[0]) {
        trim_start(s.drop_first())
    } else {
        s
    }
}

/// `str::trim_end`.
pub open spec fn trim_end(s: Seq<char>) -> Seq<char>
    decreases s.len(),
{
    if s.len() > 0 && spec_is_whitespace(s.last()) {
        trim_end(s.drop_last())
    } else {
        s
    }
}

/// `str::trim`: leading and trailing whitespace removed.
pub open spec fn spec_trim(s: Seq<char>) -> Seq<char> {
    trim_end(trim_start(s))
}

/// The characters of `s` without leading and trailing whitespace.
pub fn trim(s: &Vec<char>) -> (out: Vec<char>)
    ensures
        out@ == spec_trim(s@),
{
    let n = s.len();
    let mut lo: usize = 0;
    assert(s@.subrange(0, n as int) == s@);
    while lo < n && is_whitespace(s[lo])
        invariant
            lo <= n == s.len(),
            trim_start(s@.subrange(lo as int, n as int)) == trim_start(s@),
        decreases n - lo,
    {
        assert(s@.subrange(lo as int, n as int).drop_first() == s@.subrange(lo + 1, n as int));
        lo += 1;
    }
    let mut hi: usize = n;
    while hi > lo && is_whitespace(s[hi - 1])
        invariant
            lo <= hi <= n == s.len(),
            trim_start(s@) == s@.subrange(lo as int, n as int),
            trim_end(s@.subrange(lo as int, hi as int)) == spec_trim(s@),
        decreases hi,
    {
        assert(s@.subrange(lo as int, hi as int).drop_last() == s@.subrange(lo as int, hi - 1));
        hi -= 1;
    }
    sub_vec(s, lo, hi)
}


proof fn lemma_trim_start_shape(s: Seq<char>)
    ensures
        trim_start(s).len() <= s.len(),
        trim_start(s) == s.skip(s.len() - trim_start(s).len()),
        trim_start(s).len() > 0 ==> !spec_is_whitespace(trim_start(s)[0]),
    decreases s.len(),
{
    if s.len() > 0 && spec_is_whitespace(s[0]) {
        lemma_trim_start_shape(s.drop_first());
        assert(s.drop_first().skip(s.drop_first().len() - trim_start(s).len()) == s.skip(
            s.len() - trim_start(s).len(),
        ));
    } else {
        assert(s.skip(0) == s);
    }
}

proof fn lemma_trim_end_shape(s: Seq<char>)
    ensures
        trim_end(s).len() <= s.len(),
        trim_end(s) == s.take(trim_end(s).len() as int),
        trim_end(s).len() > 0 ==> !spec_is_whitespace(trim_end(s).last()),
    decreases s.len(),
{
    if s.len() > 0 && spec_is_whitespace(s.last()) {
        lemma_trim_end_shape(s.drop_last());
        assert(s.drop_last().take(trim_end(s).len() as int) == s.take(trim_end(s).len() as int));
    } else {
        assert(s.take(s.len() as int) == s);
    }
}

/// Trimming twice is trimming once.
pub proof fn lemma_trim_idempotent(s: Seq<char>)
    ensures
        spec_trim(spec_trim(s)) == spec_trim(s),
{
    let a = trim_start(s);
    let x = trim_end(a);
    lemma_trim_start_shape(s);
    lemma_trim_end_shape(a);
    if x.len() > 0 {
        assert(x[0] == a[0]);
        assert(trim_start(x) == x);
        assert(trim_end(x) == x);
    } else {
        assert(trim_start(x) == x);
    }
}

/// Index of the first `c` in `s` at or after `i`, or `s.len()` when there is none.
pub open spec fn find_from(s: Seq<char>, c: char, i: nat) -> nat
    decreases s.len() - i,
{
    if i >= s.len() {
        s.len()
    } else if s[i as int] == c {
        i
    } else {
        find_from(s, c, i + 1)
    }
}

pub proof fn lemma_find_from(s: Seq<char>, c: char, k: nat, p: nat)
    requires
        k <= p <= s.len(),
        forall|j: int| k <= j < p ==> s[j] != c,
        p == s.len() || s[p as int] == c,
    ensures
        find_from(s, c, k) == p,
    decreases p - k,
{
    if k < p {
        lemma_find_from(s, c, k + 1, p);
    }
}

pub proof fn lemma_find_from_bound(s: Seq<char>, c: char, k: nat)
    ensures
        k <= s.len() ==> k <= find_from(s, c, k) <= s.len(),
        find_from(s, c, k) < s.len() ==> s[find_from(s, c, k) as int] == c,
        forall|j: int| k <= j < find_from(s, c, k) ==> s[j] != c,
    decreases s.len() - k,
{
    if k < s.len() && s[k as int] != c {
        lemma_find_from_bound(s, c, k + 1);
    }
}

/// A line without the `'\r'` that precedes its `'\n'`.
pub open spec fn strip_cr(line: Seq<char>) -> Seq<char> {
    if line.len() > 0 && line.last() == '\r' {
        line.drop_last()
    } else {
        line
    }
}

/// `str::lines`: pieces ended by `'\n'` (with a `'\r'` before it dropped);
/// a last piece without `'\n'` counts when it is not empty.
pub open spec fn spec_lines(s: Seq<char>) -> Seq<Seq<char>>
    decreases s.len(),
{
    if s.len() == 0 {
        seq![]
    } else {
        let p = find_from(s, '\n', 0);
        if p >= s.len() {
            seq![s]
        } else {
            seq![strip_cr(s.take(p as int))] + spec_lines(s.skip(p + 1 as int))
        }
    }
}

/// `str::split` on one character: the pieces between its occurrences.
pub open spec fn spec_split(s: Seq<char>, sep: char) -> Seq<Seq<char>>
    decreases s.len(),
{
    let p = find_from(s, sep, 0);
    if p >= s.len() {
        seq![s]
    } else {
        seq![s.take(p as int)] + spec_split(s.skip(p + 1 as int), sep)
    }
}

/// Index of the first `c` in `s[from..]`, or `s.len()`.
pub fn find_char(s: &Vec<char>, c: char, from: usize) -> (p: usize)
    requires
        from <= s.len(),
    ensures
        p == find_from(s@, c, from as nat),
        from <= p <= s.len(),
{
    let mut i = from;
    while i < s.len() && s[i] != c
        invariant
            from <= i <= s.len(),
            forall|j: int| from <= j < i ==> s@[j] != c,
        decreases s.len() - i,
    {
        i += 1;
    }
    proof {
        lemma_find_from(s@, c, from as nat, i as nat);
    }
    i
}

proof fn lemma_skip_find(s: Seq<char>, c: char, start: int, p: int)
    requires
        0 <= start <= p <= s.len(),
        p == find_from(s, c, start as nat),
    ensures
        find_from(s.skip(start), c, 0) == p - start,
{
    lemma_find_from_bound(s, c, start as nat);
    lemma_find_from(s.skip(start), c, 0, (p - start) as nat);
}

/// The line that starts at `start`, and where the next one starts.
pub fn next_line(s: &Vec<char>, start: usize) -> (res: (Vec<char>, usize))
    requires
        start < s.len(),
    ensures
        start < res.1 <= s.len(),
        spec_lines(s@.skip(start as int)) == seq![res.0@] + spec_lines(s@.skip(res.1 as int)),
{
    let p = find_char(s, '\n', start);
    proof {
        lemma_skip_find(s@, '\n', start as int, p as int);
    }
    let ghost t = s@.skip(start as int);
    if p == s.len() {
        let line = sub_vec(s, start, p);
        assert(line@ == t);
        assert(spec_lines(s@.skip(p as int)) == Seq::<Seq<char>>::empty());
        assert(spec_lines(t) == seq![t]);
        assert(seq![t] + Seq::<Seq<char>>::empty() == seq![t]);
        (line, p)
    } else {
        let mut end = p;
        if end > start && s[end - 1] == '\r' {
            end = end - 1;
        }
        let line = sub_vec(s, start, end);
        assert(line@ == strip_cr(t.take(p - start)));
        assert(t.skip(p - start + 1) == s@.skip(p + 1));
        assert(spec_lines(t) == seq![strip_cr(t.take(p - start))] + spec_lines(s@.skip(p + 1)));
        (line, p + 1)
    }
}

/// The pieces of `s` between occurrences of `sep`, as `str::split` gives them.
pub fn split(s: &Vec<char>, sep: char) -> (out: Vec<Vec<char>>)
    ensures
        out@.len() == spec_split(s@, sep).len(),
        forall|i: int| 0 <= i < out@.len() ==> #[trigger] out@[i]@ == spec_split(s@, sep)[i],
{
    let mut out: Vec<Vec<char>> = Vec::new();
    let ghost mut done: Seq<Seq<char>> = seq![];
    let mut start: usize = 0;
    assert(s@.skip(0) == s@);
    loop
        invariant
            start <= s.len(),
            out@.len() == done.len(),
            forall|i: int| 0 <= i < out@.len() ==> #[trigger] out@[i]@ == done[i],
            done + spec_split(s@.skip(start as int), sep) == spec_split(s@, sep),
        decreases s.len() - start,
    {
        let p = find_char(s, sep, start);
        proof {
            lemma_skip_find(s@, sep, start as int, p as int);
        }
        let ghost t = s@.skip(start as int);
        let piece = sub_vec(s, start, p);
        out.push(piece);
        if p == s.len() {
            proof {
                assert(piece@ == t);
                done = done.push(t);
                assert(spec_split(t, sep) == seq![t]);
            }
            return out;
        }
        proof {
            assert(piece@ == t.take(p - start));
            assert(t.skip(p - start + 1) == s@.skip(p + 1));
            assert(spec_split(t, sep) == seq![t.take(p - start)] + spec_split(s@.skip(p + 1), sep));
            done = done.push(t.take(p - start));
        }
        start = p + 1;
    }
}

pub open spec fn spec_is_digit(c: char) -> bool {
    '0' <= c && c <= '9'
}

pub open spec fn digit_value(c: char) -> int {
    c as int - '0' as int
}

/// The number that a string of decimal digits denotes.
pub open spec fn digits_value(d: Seq<char>) -> int
    decreases d.len(),
{
    if d.len() == 0 {
        0
    } else {
        digits_value(d.drop_last()) * 10 + digit_value(d.last())
    }
}

pub open spec fn all_digits(d: Seq<char>) -> bool {
    forall|i: int| 0 <= i < d.len() ==> spec_is_digit(#[trigger] d[i])
}

/// The digits of a number: what follows an optional sign.
pub open spec fn unsigned_part(s: Seq<char>) -> Seq<char> {
    if s.len() > 0 && (s[0] == '-' || s[0] == '+') {
        s.drop_first()
    } else {
        s
    }
}

/// `i64::from_str`: an optional `+` or `-`, then one or more decimal digits,
/// denoting a value in range.
pub open spec fn spec_parse_i64(s: Seq<char>) -> Option<i64> {
    let d = unsigned_part(s);
    if d.len() == 0 || !all_digits(d) {
        None
    } else if s[0] == '-' {
        if digits_value(d) <= 0x8000_0000_0000_0000 {
            Some((-digits_value(d)) as i64)
        } else {
            None
        }
    } else if digits_value(d) <= 0x7fff_ffff_ffff_ffff {
        Some(digits_value(d) as i64)
    } else {
        None
    }
}

proof fn lemma_digits_nonneg(d: Seq<char>)
    requires
        all_digits(d),
    ensures
        digits_value(d) >= 0,
    decreases d.len(),
{
    if d.len() > 0 {
        lemma_digits_nonneg(d.drop_last());
    }
}

proof fn lemma_digits_prefix(d: Seq<char>, i: int)
    requires
        all_digits(d),
        0 <= i <= d.len(),
    ensures
        digits_value(d.take(i)) <= digits_value(d),
    decreases d.len() - i,
{
    if i < d.len() {
        lemma_digits_prefix(d, i + 1);
        assert(d.take(i + 1).drop_last() == d.take(i));
        lemma_digits_nonneg(d.take(i));
    } else {
        assert(d.take(i) == d);
    }
}

/// Parses a decimal `i64` as `str::parse::<i64>` does.
pub fn parse_i64(s: &Vec<char>) -> (res: Option<i64>)
    ensures
        res == spec_parse_i64(s@),
{
    let n = s.len();
    if n == 0 {
        return None;
    }
    let neg = s[0] == '-';
    let start: usize = if s[0] == '-' || s[0] == '+' { 1 } else { 0 };
    let ghost d = unsigned_part(s@);
    assert(d == s@.skip(start as int));
    if start == n {
        return None;
    }
    let mut acc: u128 = 0;
    let mut i = start;
    while i < n
        invariant
            start <= i <= n == s.len(),
            d == s@.skip(start as int),
            d == unsigned_part(s@),
            d.len() > 0,
            forall|j: int| 0 <= j < i - start ==> spec_is_digit(#[trigger] d[j]),
            acc as int == digits_value(d.take(i - start)),
            acc <= 0x8000_0000_0000_0000,
        decreases n - i,
    {
        let c = s[i];
        if !('0' <= c && c <= '9') {
            assert(!spec_is_digit(d[i - start]));
            return None;
        }
        let dv = (c as u32 - '0' as u32) as u128;
        assert(d.take(i - start + 1).drop_last() == d.take(i - start));
        acc = acc * 10 + dv;
        i += 1;
        if acc > 0x8000_0000_0000_0000 {
            proof {
                if all_digits(d) {
                    lemma_digits_prefix(d, i - start);
                }
            }
            return None;
        }
    }
    assert(d.take(n - start) == d);
    if neg {
        if acc == 0x8000_0000_0000_0000 {
            Some(i64::MIN)
        } else {
            let v = acc as i64;
            Some(-v)
        }
    } else if acc <= 0x7fff_ffff_ffff_ffff {
        Some(acc as i64)
    } else {
        None
    }
}

/// The pieces joined, with `sep` between each two.
pub open spec fn join_with(pieces: Seq<Seq<char>>, sep: Seq<char>) -> Seq<char>
    decreases pieces.len(),
{
    if pieces.len() == 0 {
        seq![]
    } else if pieces.len() == 1 {
        pieces[0]
    } else {
        join_with(pieces.drop_last(), sep) + sep + pieces.last()
    }
}

/// Joins strings with a separator, as `[String]::join` does.
pub fn join(pieces: &Vec<String>, sep: &str) -> (out: String)
    ensures
        out@ == join_with(pieces@.map_values(|p: String| p@), sep@),
{
    let ghost views = pieces@.map_values(|p: String| p@);
    let sep_chars = chars_of(sep);
    let mut acc: Vec<char> = Vec::new();
    for i in 0..pieces.len()
        invariant
            views == pieces@.map_values(|p: String| p@),
            sep_chars@ == sep@,
            acc@ == join_with(views.take(i as int), sep@),
    {
        let piece = chars_of(pieces[i].as_str());
        assert(views.take(i + 1).drop_last() == views.take(i as int));
        if i > 0 {
            extend_chars(&mut acc, &sep_chars);
        } else {
            assert(acc@ + piece@ == piece@);
        }
        extend_chars(&mut acc, &piece);
    }
    assert(views.take(pieces.len() as int) == views);
    string_of(&acc)
}

} // verus!
