//! Sets of words and word counts, kept sorted by the characters of the word.
use vstd::prelude::*;
use crate::text::{chars_of, string_of};

verus! {

/// Lexicographic order on character sequences (by code point).
pub open spec fn seq_lt(a: Seq<char>, b: Seq<char>) -> bool
    decreases a.len(),
{
    if a.len() == 0 {
        b.len() > 0
    } else if b.len() == 0 {
        false
    } else if a[0] != b[0] {
        a[0] < b[0]
    } else {
        seq_lt(a.drop_first(), b.drop_first())
    }
}

pub proof fn lemma_lt_irreflexive(a: Seq<char>)
    ensures
        !seq_lt(a, a),
    decreases a.len(),
{
    if a.len() > 0 {
        lemma_lt_irreflexive(a.drop_first());
    }
}

pub proof fn lemma_lt_transitive(a: Seq<char>, b: Seq<char>, c: Seq<char>)
    requires
        seq_lt(a, b),
        seq_lt(b, c),
    ensures
        seq_lt(a, c),
    decreases a.len(),
{
    if a.len() > 0 && b.len() > 0 && c.len() > 0 && a[0] == b[0] && b[0] == c[0] {
        lemma_lt_transitive(a.drop_first(), b.drop_first(), c.drop_first());
    }
}

pub proof fn lemma_lt_total(a: Seq<char>, b: Seq<char>)
    requires
        a != b,
    ensures
        seq_lt(a, b) || seq_lt(b, a),
    decreases a.len(),
{
    if a.len() == 0 && b.len() == 0 {
        assert(a =~= b);
    }
    if a.len() > 0 && b.len() > 0 && a[0] == b[0] {
        if a.drop_first() =~= b.drop_first() {
            assert forall|i: int| 0 <= i < a.len() implies a[i] == b[i] by {
                if i > 0 {
                    assert(a[i] == a.drop_first()[i - 1]);
                    assert(b[i] == b.drop_first()[i - 1]);
                }
            }
            assert(a =~= b);
        } else {
            lemma_lt_total(a.drop_first(), b.drop_first());
        }
    }
}

/// Where one character sequence stands relative to another.
#[derive(PartialEq, Eq, Structural, Clone, Copy, Debug)]
pub enum Lex {
    Before,
    Same,
    After,
}

/// Compares two character sequences lexicographically.
pub fn compare_chars(a: &Vec<char>, b: &Vec<char>) -> (r: Lex)
    ensures
        (r == Lex::Before) == seq_lt(a@, b@),
        (r == Lex::Same) == (a@ == b@),
        (r == Lex::After) == seq_lt(b@, a@),
{
    let n = if a.len() < b.len() {
        a.len()
    } else {
        b.len()
    };
    let mut i: usize = 0;
    assert(a@.skip(0) == a@);
    assert(b@.skip(0) == b@);
    while i < n
        invariant
            i <= n,
            n == a.len() || n == b.len(),
            n <= a.len() && n <= b.len(),
            a@.take(i as int) == b@.take(i as int),
            seq_lt(a@, b@) == seq_lt(a@.skip(i as int), b@.skip(i as int)),
            seq_lt(b@, a@) == seq_lt(b@.skip(i as int), a@.skip(i as int)),
        decreases n - i,
    {
        if a[i] != b[i] {
            assert(a@.skip(i as int)[0] == a@[i as int]);
            assert(b@.skip(i as int)[0] == b@[i as int]);
            if a[i] < b[i] {
                return Lex::Before;
            } else {
                return Lex::After;
            }
        }
        assert(a@.skip(i as int).drop_first() == a@.skip(i + 1));
        assert(b@.skip(i as int).drop_first() == b@.skip(i + 1));
        assert(a@.take(i + 1) == a@.take(i as int).push(a@[i as int]));
        assert(b@.take(i + 1) == b@.take(i as int).push(b@[i as int]));
        i += 1;
    }
    if a.len() == b.len() {
        assert(a@ == a@.take(i as int));
        assert(b@ == b@.take(i as int));
        proof {
            lemma_lt_irreflexive(a@);
        }
        Lex::Same
    } else if a.len() < b.len() {
        assert(a@.skip(i as int).len() == 0);
        Lex::Before
    } else {
        assert(b@.skip(i as int).len() == 0);
        Lex::After
    }
}

/// The characters of each word.
pub open spec fn views(ws: Seq<Vec<char>>) -> Seq<Seq<char>> {
    ws.map_values(|w: Vec<char>| w@)
}

/// Each word comes before every later one.
pub open spec fn strictly_sorted(ks: Seq<Seq<char>>) -> bool {
    forall|i: int, j: int| 0 <= i < j < ks.len() ==> seq_lt(#[trigger] ks[i], #[trigger] ks[j])
}

/// Position at which `x` stands, or would stand, in the sorted `keys`, and
/// whether it is there.
pub(crate) fn search_sorted(keys: &Vec<Vec<char>>, x: &Vec<char>) -> (res: (usize, bool))
    requires
        strictly_sorted(views(keys@)),
    ensures
        res.0 <= keys.len(),
        forall|k: int| 0 <= k < res.0 ==> seq_lt(#[trigger] views(keys@)[k], x@),
        forall|k: int| res.0 <= k < keys.len() ==> !seq_lt(#[trigger] views(keys@)[k], x@),
        res.1 == (res.0 < keys.len() && views(keys@)[res.0 as int] == x@),
        res.1 == views(keys@).contains(x@),
        !res.1 ==> forall|k: int| res.0 <= k < keys.len() ==> seq_lt(x@, #[trigger] views(keys@)[k]),
{
    let ghost ks = views(keys@);
    let mut lo: usize = 0;
    let mut hi: usize = keys.len();
    while lo < hi
        invariant
            ks == views(keys@),
            strictly_sorted(ks),
            lo <= hi <= keys.len(),
            forall|k: int| 0 <= k < lo ==> seq_lt(#[trigger] ks[k], x@),
            forall|k: int| hi <= k < keys.len() ==> !seq_lt(#[trigger] ks[k], x@),
        decreases hi - lo,
    {
        let mid = lo + (hi - lo) / 2;
        let r = compare_chars(&keys[mid], x);
        assert(ks[mid as int] == keys@[mid as int]@);
        if r == Lex::Before {
            assert forall|k: int| 0 <= k <= mid implies seq_lt(#[trigger] ks[k], x@) by {
                if k < mid {
                    lemma_lt_transitive(ks[k], ks[mid as int], x@);
                }
            }
            lo = mid + 1;
        } else {
            assert forall|k: int| mid <= k < keys.len() implies !seq_lt(#[trigger] ks[k], x@) by {
                if k > mid && seq_lt(ks[k], x@) {
                    lemma_lt_transitive(ks[mid as int], ks[k], x@);
                }
            }
            hi = mid;
        }
    }
    let found = lo < keys.len() && compare_chars(&keys[lo], x) == Lex::Same;
    proof {
        if lo < keys.len() {
            assert(ks[lo as int] == keys@[lo as int]@);
        }
        if !found {
            assert forall|k: int| lo <= k < keys.len() implies seq_lt(x@, #[trigger] ks[k]) by {
                lemma_lt_total(ks[lo as int], x@);
                if k > lo {
                    lemma_lt_transitive(x@, ks[lo as int], ks[k]);
                }
            }
            assert forall|k: int| 0 <= k < ks.len() implies ks[k] != x@ by {
                lemma_lt_irreflexive(x@);
            }
        } else {
            assert(ks[lo as int] == x@);
        }
    }
    (lo, found)
}

/// Inserting `x` at the position that `search` gives keeps the keys sorted.
pub(crate) proof fn lemma_insert_sorted(ks: Seq<Seq<char>>, p: int, x: Seq<char>)
    requires
        strictly_sorted(ks),
        0 <= p <= ks.len(),
        forall|k: int| 0 <= k < p ==> seq_lt(#[trigger] ks[k], x),
        forall|k: int| p <= k < ks.len() ==> seq_lt(x, #[trigger] ks[k]),
    ensures
        strictly_sorted(ks.insert(p, x)),
{
    let ns = ks.insert(p, x);
    assert forall|i: int, j: int| 0 <= i < j < ns.len() implies seq_lt(
        #[trigger] ns[i],
        #[trigger] ns[j],
    ) by {
        if i < p && j == p {
        } else if i == p {
            assert(ns[j] == ks[j - 1]);
        } else if j < p {
        } else if i < p {
            assert(ns[j] == ks[j - 1]);
        } else {
            assert(ns[i] == ks[i - 1] && ns[j] == ks[j - 1]);
        }
    }
}

/// A set of words.
pub struct WordSet {
    words: Vec<Vec<char>>,
}

impl WordSet {
    #[verifier::type_invariant]
    spec fn sorted_words(self) -> bool {
        strictly_sorted(views(self.words@))
    }

    /// The words, in order.
    pub closed spec fn ordered(self) -> Seq<Seq<char>> {
        views(self.words@)
    }

    /// The words of the set.
    pub open spec fn view(self) -> Set<Seq<char>> {
        self.ordered().to_set()
    }

    /// The empty set.
    pub fn new() -> (s: Self)
        ensures
            s.view() == Set::<Seq<char>>::empty(),
            s.ordered().len() == 0,
    {
        let s = WordSet { words: Vec::new() };
        assert(s.ordered() == Seq::<Seq<char>>::empty());
        assert(s.view() =~= Set::<Seq<char>>::empty());
        s
    }

    /// Number of words in the set.
    pub fn len(&self) -> (n: usize)
        ensures
            n == self.ordered().len(),
            n == self.view().len(),
    {
        proof {
            use_type_invariant(self);
            self.lemma_ordered_distinct();
        }
        self.words.len()
    }

    proof fn lemma_ordered_distinct(self)
        requires
            strictly_sorted(self.ordered()),
        ensures
            self.ordered().no_duplicates(),
            self.ordered().to_set().len() == self.ordered().len(),
    {
        let o = self.ordered();
        assert forall|i: int, j: int| 0 <= i < o.len() && 0 <= j < o.len() && i != j implies o[i]
            != o[j] by {
            lemma_lt_irreflexive(o[i]);
            if i < j {
                assert(seq_lt(o[i], o[j]));
            } else {
                assert(seq_lt(o[j], o[i]));
            }
        }
        o.unique_seq_to_set();
    }

    /// Whether `w` is in the set.
    pub fn contains_chars(&self, w: &Vec<char>) -> (b: bool)
        ensures
            b == self.view().contains(w@),
    {
        proof {
            use_type_invariant(self);
        }
        let (_, found) = search_sorted(&self.words, w);
        found
    }

    /// Whether `w` is in the set.
    pub fn contains(&self, w: &str) -> (b: bool)
        ensures
            b == self.view().contains(w@),
    {
        self.contains_chars(&chars_of(w))
    }

    /// Adds `w`; says whether it was new.
    pub fn insert_chars(&mut self, w: Vec<char>) -> (added: bool)
        ensures
            final(self).view() == old(self).view().insert(w@),
            added == !old(self).view().contains(w@),
            final(self).ordered().len() == old(self).ordered().len() + if added {
                1int
            } else {
                0int
            },
    {
        proof {
            use_type_invariant(&*self);
        }
        let (p, found) = search_sorted(&self.words, &w);
        if found {
            return false;
        }
        let ghost ks = views(self.words@);
        let ghost x = w@;
        proof {
            lemma_insert_sorted(ks, p as int, x);
        }
        let mut words = Vec::new();
        std::mem::swap(&mut words, &mut self.words);
        words.insert(p, w);
        assert(views(words@) == ks.insert(p as int, x));
        *self = WordSet { words };
        proof {
            assert(self.view() =~= old(self).view().insert(x)) by {
                assert forall|y| self.view().contains(y) <==> old(self).view().insert(x).contains(y) by {
                    if self.view().contains(y) {
                        let k = choose|k: int| 0 <= k < ks.insert(p as int, x).len() && ks.insert(p as int, x)[k] == y;
                        if k != p {
                            if k < p {
                                assert(ks[k] == y);
                            } else {
                                assert(ks[k - 1] == y);
                            }
                        }
                    }
                    if old(self).view().contains(y) && y != x {
                        let k = choose|k: int| 0 <= k < ks.len() && ks[k] == y;
                        if k < p {
                            assert(ks.insert(p as int, x)[k] == y);
                        } else {
                            assert(ks.insert(p as int, x)[k + 1] == y);
                        }
                    }
                    if y == x {
                        assert(ks.insert(p as int, x)[p as int] == x);
                    }
                }
            }
        }
        true
    }

    /// Adds `w`; says whether it was new.
    pub fn insert(&mut self, w: &str) -> (added: bool)
        ensures
            final(self).view() == old(self).view().insert(w@),
            added == !old(self).view().contains(w@),
            final(self).ordered().len() == old(self).ordered().len() + if added {
                1int
            } else {
                0int
            },
    {
        self.insert_chars(chars_of(w))
    }

    /// The words, in lexicographic order.
    pub fn to_vec(&self) -> (out: Vec<String>)
        ensures
            out@.len() == self.ordered().len(),
            forall|i: int| 0 <= i < out@.len() ==> #[trigger] out@[i]@ == self.ordered()[i],
            self.ordered().to_set() == self.view(),
            strictly_sorted(self.ordered()),
    {
        proof {
            use_type_invariant(self);
        }
        let mut out: Vec<String> = Vec::new();
        for i in 0..self.words.len()
            invariant
                out@.len() == i,
                i <= self.words.len(),
                forall|k: int| 0 <= k < i ==> #[trigger] out@[k]@ == self.ordered()[k],
        {
            out.push(string_of(&self.words[i]));
        }
        out
    }
}

} // verus!
