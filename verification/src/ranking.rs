//! Counting the unknown lemmas of a text and ranking them by frequency.
use vstd::prelude::*;
use crate::text::{chars_of, contains_string, string_of};
use crate::word_set::{
    compare_chars, lemma_insert_sorted, lemma_lt_irreflexive, lemma_lt_total, lemma_lt_transitive, search_sorted, seq_lt,
    strictly_sorted, views, Lex, WordSet,
};

verus! {

/// Index of `w` among `ks`.
pub open spec fn position(ks: Seq<Seq<char>>, w: Seq<char>) -> int {
    choose|i: int| 0 <= i < ks.len() && ks[i] == w
}

pub(crate) proof fn lemma_position(ks: Seq<Seq<char>>, i: int)
    requires
        strictly_sorted(ks),
        0 <= i < ks.len(),
    ensures
        position(ks, ks[i]) == i,
{
    let p = position(ks, ks[i]);
    assert(0 <= p < ks.len() && ks[p] == ks[i]);
    lemma_lt_irreflexive(ks[i]);
    if p < i {
        assert(seq_lt(ks[p], ks[i]));
    } else if p > i {
        assert(seq_lt(ks[i], ks[p]));
    }
}

/// How often each lemma occurs.
pub struct LemmaCounts {
    keys: Vec<Vec<char>>,
    counts: Vec<usize>,
}

impl LemmaCounts {
    #[verifier::type_invariant]
    spec fn well_formed(self) -> bool {
        &&& self.keys.len() == self.counts.len()
        &&& strictly_sorted(views(self.keys@))
    }

    /// The lemmas counted, in lexicographic order.
    pub closed spec fn lemmas(self) -> Seq<Seq<char>> {
        views(self.keys@)
    }

    /// Each lemma with its count.
    pub closed spec fn view(self) -> Map<Seq<char>, nat> {
        Map::new(
            |w: Seq<char>| self.lemmas().contains(w),
            |w: Seq<char>| self.counts@[position(self.lemmas(), w)] as nat,
        )
    }

    /// Counts of nothing.
    pub fn new() -> (c: Self)
        ensures
            c@ == Map::<Seq<char>, nat>::empty(),
    {
        let c = LemmaCounts { keys: Vec::new(), counts: Vec::new() };
        assert(c@ =~= Map::<Seq<char>, nat>::empty());
        c
    }

    /// Number of distinct lemmas.
    pub fn len(&self) -> (n: usize)
        ensures
            n == self@.dom().len(),
    {
        proof {
            use_type_invariant(self);
            let ks = self.lemmas();
            assert forall|i: int, j: int| 0 <= i < ks.len() && 0 <= j < ks.len() && i != j implies ks[i]
                != ks[j] by {
                lemma_lt_irreflexive(ks[i]);
                if i < j {
                    assert(seq_lt(ks[i], ks[j]));
                } else {
                    assert(seq_lt(ks[j], ks[i]));
                }
            }
            ks.unique_seq_to_set();
            assert(self@.dom() =~= ks.to_set());
        }
        self.keys.len()
    }

    /// The count of `w` (zero when it was never counted).
    pub fn get(&self, w: &str) -> (n: usize)
        ensures
            self@.contains_key(w@) ==> n == self@[w@],
            !self@.contains_key(w@) ==> n == 0,
    {
        proof {
            use_type_invariant(self);
        }
        let cs = chars_of(w);
        let (p, found) = search_sorted(&self.keys, &cs);
        if found {
            proof {
                lemma_position(self.lemmas(), p as int);
            }
            self.counts[p]
        } else {
            0
        }
    }

    /// Adds one occurrence of `w`.
    pub fn increment(&mut self, w: Vec<char>)
        requires
            old(self)@.contains_key(w@) ==> old(self)@[w@] < usize::MAX,
        ensures
            final(self)@ == old(self)@.insert(
                w@,
                if old(self)@.contains_key(w@) {
                    old(self)@[w@] + 1
                } else {
                    1
                },
            ),
    {
        proof {
            use_type_invariant(&*self);
        }
        let ghost ks = self.lemmas();
        let ghost cs = self.counts@;
        let ghost x = w@;
        let (p, found) = search_sorted(&self.keys, &w);
        let mut taken = LemmaCounts::new();
        std::mem::swap(&mut taken, self);
        let LemmaCounts { mut keys, mut counts } = taken;
        if found {
            proof {
                lemma_position(ks, p as int);
            }
            let c = counts[p];
            counts.set(p, c + 1);
            *self = LemmaCounts { keys, counts };
            proof {
                assert forall|y: Seq<char>| #[trigger] ks.contains(y) implies self.counts@[position(ks, y)]
                    == if y == x {
                    cs[position(ks, y)] + 1
                } else {
                    cs[position(ks, y)] as int
                } by {
                    let i = choose|i: int| 0 <= i < ks.len() && ks[i] == y;
                    lemma_position(ks, i);
                }
                assert(self@ =~= old(self)@.insert(x, old(self)@[x] + 1));
            }
        } else {
            proof {
                lemma_insert_sorted(ks, p as int, x);
            }
            keys.insert(p, w);
            counts.insert(p, 1);
            assert(views(keys@) == ks.insert(p as int, x));
            *self = LemmaCounts { keys, counts };
            proof {
                let nks = ks.insert(p as int, x);
                assert(nks[p as int] == x);
                lemma_position(nks, p as int);
                assert forall|y: Seq<char>| #[trigger] nks.contains(y) <==> (ks.contains(y) || y == x) by {
                    if nks.contains(y) && y != x {
                        let k = choose|k: int| 0 <= k < nks.len() && nks[k] == y;
                        if k < p {
                            assert(ks[k] == y);
                        } else {
                            assert(ks[k - 1] == y);
                        }
                    }
                    if ks.contains(y) {
                        let k = choose|k: int| 0 <= k < ks.len() && ks[k] == y;
                        if k < p {
                            assert(nks[k] == y);
                        } else {
                            assert(nks[k + 1] == y);
                        }
                    }
                }
                assert forall|y: Seq<char>| #[trigger] ks.contains(y) implies self.counts@[position(nks, y)]
                    == cs[position(ks, y)] by {
                    let k = choose|k: int| 0 <= k < ks.len() && ks[k] == y;
                    lemma_position(ks, k);
                    if k < p {
                        assert(nks[k] == y);
                        lemma_position(nks, k);
                    } else {
                        assert(nks[k + 1] == y);
                        lemma_position(nks, k + 1);
                    }
                }
                assert(self@ =~= old(self)@.insert(x, 1));
            }
        }
    }
}


/// A morpheme of the analysed text: its part-of-speech fields and its
/// dictionary form.
pub struct Morpheme {
    pub part_of_speech: Vec<String>,
    pub dictionary_form: String,
}

impl Morpheme {
    pub open spec fn pos_view(self) -> Seq<Seq<char>> {
        self.part_of_speech@.map_values(|p: String| p@)
    }
}

/// Whether a morpheme counts: none of its part-of-speech fields is skipped,
/// and its dictionary form is not known.
pub open spec fn counts_toward(
    pos: Seq<Seq<char>>,
    lemma: Seq<char>,
    skip: Seq<Seq<char>>,
    known: Set<Seq<char>>,
) -> bool {
    &&& forall|i: int| 0 <= i < pos.len() ==> !skip.contains(#[trigger] pos[i])
    &&& !known.contains(lemma)
}

/// The occurrences of each counted lemma among `ms`.
pub open spec fn tally(ms: Seq<Morpheme>, skip: Seq<Seq<char>>, known: Set<Seq<char>>) -> Map<
    Seq<char>,
    nat,
>
    decreases ms.len(),
{
    if ms.len() == 0 {
        Map::empty()
    } else {
        let prev = tally(ms.drop_last(), skip, known);
        let m = ms.last();
        let w = m.dictionary_form@;
        if counts_toward(m.pos_view(), w, skip, known) {
            prev.insert(
                w,
                if prev.contains_key(w) {
                    prev[w] + 1
                } else {
                    1
                },
            )
        } else {
            prev
        }
    }
}

proof fn lemma_tally_bound(ms: Seq<Morpheme>, skip: Seq<Seq<char>>, known: Set<Seq<char>>)
    ensures
        forall|w: Seq<char>| #[trigger]
            tally(ms, skip, known).contains_key(w) ==> tally(ms, skip, known)[w] <= ms.len(),
    decreases ms.len(),
{
    if ms.len() > 0 {
        let prev = tally(ms.drop_last(), skip, known);
        lemma_tally_bound(ms.drop_last(), skip, known);
        assert forall|w: Seq<char>| #[trigger] tally(ms, skip, known).contains_key(w) implies tally(
            ms,
            skip,
            known,
        )[w] <= ms.len() by {
            if prev.contains_key(w) {
                assert(prev[w] <= ms.len() - 1);
            }
        }
    }
}

/// Whether a morpheme counts toward the tally.
fn morpheme_counts(m: &Morpheme, skip_pos: &Vec<String>, known: &WordSet) -> (b: bool)
    ensures
        b == counts_toward(m.pos_view(), m.dictionary_form@, skip_pos@.map_values(|p: String| p@), known.view()),
{
    let ghost skip = skip_pos@.map_values(|p: String| p@);
    for i in 0..m.part_of_speech.len()
        invariant
            skip == skip_pos@.map_values(|p: String| p@),
            forall|k: int| 0 <= k < i ==> !skip.contains(#[trigger] m.pos_view()[k]),
    {
        if contains_string(skip_pos, &m.part_of_speech[i]) {
            assert(m.pos_view()[i as int] == m.part_of_speech@[i as int]@);
            return false;
        }
    }
    !known.contains(m.dictionary_form.as_str())
}

/// Counts how often each lemma occurs among `morphemes`, leaving out morphemes
/// with a skipped part of speech and lemmas that are already known.
pub fn count_unknown_lemmas(morphemes: &Vec<Morpheme>, skip_pos: &Vec<String>, known: &WordSet) -> (counts: LemmaCounts)
    ensures
        counts@ == tally(morphemes@, skip_pos@.map_values(|p: String| p@), known.view()),
{
    let ghost skip = skip_pos@.map_values(|p: String| p@);
    let mut counts = LemmaCounts::new();
    for i in 0..morphemes.len()
        invariant
            skip == skip_pos@.map_values(|p: String| p@),
            counts@ == tally(morphemes@.take(i as int), skip, known.view()),
    {
        proof {
            lemma_tally_bound(morphemes@.take(i as int), skip, known.view());
            assert(morphemes@.take(i + 1).drop_last() == morphemes@.take(i as int));
        }
        let m = &morphemes[i];
        if morpheme_counts(m, skip_pos, known) {
            counts.increment(chars_of(m.dictionary_form.as_str()));
        }
    }
    assert(morphemes@.take(morphemes.len() as int) == morphemes@);
    counts
}

/// `a` ranks before `b`: it occurs more often, or as often and comes first
/// in lexicographic order.
pub open spec fn ranks_before(a: (Seq<char>, nat), b: (Seq<char>, nat)) -> bool {
    a.1 > b.1 || (a.1 == b.1 && seq_lt(a.0, b.0))
}

pub open spec fn ranked(s: Seq<(Seq<char>, nat)>) -> bool {
    forall|i: int, j: int| 0 <= i < j < s.len() ==> ranks_before(#[trigger] s[i], #[trigger] s[j])
}

proof fn lemma_ranks_transitive(a: (Seq<char>, nat), b: (Seq<char>, nat), c: (Seq<char>, nat))
    requires
        ranks_before(a, b),
        ranks_before(b, c),
    ensures
        ranks_before(a, c),
{
    if a.1 == b.1 && b.1 == c.1 {
        lemma_lt_transitive(a.0, b.0, c.0);
    }
}

/// The pairs of a ranking, as views.
pub open spec fn pair_views(v: Seq<(String, usize)>) -> Seq<(Seq<char>, nat)> {
    v.map_values(|p: (String, usize)| (p.0@, p.1 as nat))
}

/// `s` lists the lemmas of `m` with their counts, each once, best ranked first.
pub open spec fn is_ranking(s: Seq<(Seq<char>, nat)>, m: Map<Seq<char>, nat>) -> bool {
    &&& ranked(s)
    &&& forall|k: int| 0 <= k < s.len() ==> m.contains_key(#[trigger] s[k].0) && m[s[k].0] == s[k].1
    &&& forall|w: Seq<char>| #[trigger] m.contains_key(w) ==> exists|k: int| 0 <= k < s.len() && s[k].0 == w
}

proof fn lemma_ranks_total(a: (Seq<char>, nat), b: (Seq<char>, nat))
    requires
        a.0 != b.0,
    ensures
        ranks_before(a, b) || ranks_before(b, a),
{
    lemma_lt_total(a.0, b.0);
}

proof fn lemma_ranked_distinct(s: Seq<(Seq<char>, nat)>, m: Map<Seq<char>, nat>, i: int, j: int)
    requires
        ranked(s),
        forall|k: int| 0 <= k < s.len() ==> m.contains_key(#[trigger] s[k].0) && m[s[k].0] == s[k].1,
        0 <= i < s.len(),
        0 <= j < s.len(),
        i != j,
    ensures
        s[i].0 != s[j].0,
{
    lemma_lt_irreflexive(s[i].0);
    if s[i].0 == s[j].0 {
        assert(s[i].1 == m[s[i].0] && s[j].1 == m[s[j].0]);
        if i < j {
            assert(ranks_before(s[i], s[j]));
        } else {
            assert(ranks_before(s[j], s[i]));
        }
    }
}



proof fn lemma_ranking_tail(a: Seq<(Seq<char>, nat)>, m: Map<Seq<char>, nat>)
    requires
        is_ranking(a, m),
        a.len() > 0,
    ensures
        is_ranking(a.drop_first(), m.remove(a[0].0)),
{
    let t = a.drop_first();
    let mr = m.remove(a[0].0);
    assert forall|k: int| 0 <= k < t.len() implies mr.contains_key(#[trigger] t[k].0) && mr[t[k].0] == t[k].1 by {
        assert(t[k] == a[k + 1]);
        lemma_ranked_distinct(a, m, 0, k + 1);
    }
    assert forall|w: Seq<char>| #[trigger] mr.contains_key(w) implies exists|k: int| 0 <= k < t.len() && t[k].0 == w by {
        let k = choose|k: int| 0 <= k < a.len() && a[k].0 == w;
        assert(k != 0);
        assert(t[k - 1].0 == w);
    }
    assert forall|i: int, j: int| 0 <= i < j < t.len() implies ranks_before(#[trigger] t[i], #[trigger] t[j]) by {
        assert(t[i] == a[i + 1] && t[j] == a[j + 1]);
    }
}

/// The ranking of a set of counts is unique: any two rankings of the same
/// counts are equal.
pub proof fn lemma_ranking_unique(a: Seq<(Seq<char>, nat)>, b: Seq<(Seq<char>, nat)>, m: Map<Seq<char>, nat>)
    requires
        is_ranking(a, m),
        is_ranking(b, m),
    ensures
        a == b,
    decreases a.len(),
{
    if a.len() == 0 {
        if b.len() > 0 {
            assert(m.contains_key(b[0].0));
        }
        assert(a =~= b);
    } else {
        assert(m.contains_key(a[0].0));
        let k = choose|k: int| 0 <= k < b.len() && b[k].0 == a[0].0;
        assert(b[k] == a[0]);
        assert(m.contains_key(b[0].0));
        let j = choose|j: int| 0 <= j < a.len() && a[j].0 == b[0].0;
        assert(a[j] == b[0]);
        if k != 0 && j != 0 {
            assert(ranks_before(b[0], b[k]));
            assert(ranks_before(a[0], a[j]));
            lemma_ranks_transitive(a[0], b[0], a[0]);
            lemma_lt_irreflexive(a[0].0);
        }
        assert(a[0] == b[0]);
        lemma_ranking_tail(a, m);
        lemma_ranking_tail(b, m);
        lemma_ranking_unique(a.drop_first(), b.drop_first(), m.remove(a[0].0));
        assert(a =~= b) by {
            assert forall|i: int| 0 <= i < a.len() implies a[i] == b[i] by {
                if i > 0 {
                    assert(a[i] == a.drop_first()[i - 1]);
                    assert(b[i] == b.drop_first()[i - 1]);
                }
            }
        }
    }
}

/// Pairs built from distinct sorted keys: a new key differs from all earlier ones.
proof fn lemma_new_key_distinct(
    rv: Seq<(Seq<char>, nat)>,
    src: Seq<(Seq<char>, nat)>,
    ks: Seq<Seq<char>>,
    idx: Seq<int>,
    i: int,
)
    requires
        strictly_sorted(ks),
        0 <= i < src.len() == ks.len(),
        forall|j: int| 0 <= j < src.len() ==> (#[trigger] src[j]).0 == ks[j],
        rv.len() == i,
        forall|k: int| 0 <= k < i ==> 0 <= #[trigger] idx[k] < i && rv[k] == src[idx[k]],
    ensures
        forall|k: int| 0 <= k < i ==> (#[trigger] rv[k]).0 != src[i].0,
{
    assert forall|k: int| 0 <= k < i implies (#[trigger] rv[k]).0 != src[i].0 by {
        let j = idx[k];
        assert(src[j].0 == ks[j]);
        assert(src[i].0 == ks[i]);
        assert(seq_lt(ks[j], ks[i]));
        lemma_lt_irreflexive(ks[i]);
    }
}

/// Once the scan stops at `p`, `e` ranks before every entry from `p` on.
proof fn lemma_insert_position(rv: Seq<(Seq<char>, nat)>, e: (Seq<char>, nat), p: int)
    requires
        ranked(rv),
        0 <= p <= rv.len(),
        forall|k: int| 0 <= k < rv.len() ==> (#[trigger] rv[k]).0 != e.0,
        p < rv.len() ==> !ranks_before(rv[p], e),
    ensures
        forall|k: int| p <= k < rv.len() ==> ranks_before(e, #[trigger] rv[k]),
{
    if p < rv.len() {
        lemma_ranks_total(rv[p], e);
        assert forall|k: int| p <= k < rv.len() implies ranks_before(e, #[trigger] rv[k]) by {
            if k > p {
                lemma_ranks_transitive(e, rv[p], rv[k]);
            }
        }
    }
}

/// Inserting the next source pair at its place keeps the ranking ordered and
/// its entries the source pairs seen so far: `idx` says where each entry came
/// from, `pos` where each source pair went.
proof fn lemma_insert_ranked(
    rv: Seq<(Seq<char>, nat)>,
    src: Seq<(Seq<char>, nat)>,
    idx: Seq<int>,
    pos: Seq<int>,
    i: int,
    p: int,
)
    requires
        ranked(rv),
        0 <= p <= i == rv.len() == idx.len() == pos.len() < src.len(),
        forall|k: int| 0 <= k < p ==> ranks_before(#[trigger] rv[k], src[i]),
        forall|k: int| p <= k < i ==> ranks_before(src[i], #[trigger] rv[k]),
        forall|k: int| 0 <= k < i ==> 0 <= #[trigger] idx[k] < i && rv[k] == src[idx[k]],
        forall|j: int| 0 <= j < i ==> 0 <= #[trigger] pos[j] < i && rv[pos[j]] == src[j],
    ensures
        ({
            let nrv = rv.insert(p, src[i]);
            let nidx = idx.insert(p, i);
            let npos = shift_from(pos, p).push(p);
            &&& ranked(nrv)
            &&& forall|k: int| 0 <= k < i + 1 ==> 0 <= #[trigger] nidx[k] < i + 1 && nrv[k] == src[nidx[k]]
            &&& forall|j: int| 0 <= j < i + 1 ==> 0 <= #[trigger] npos[j] < i + 1 && nrv[npos[j]] == src[j]
        }),
{
    let e = src[i];
    let nrv = rv.insert(p, e);
    let nidx = idx.insert(p, i);
    let npos = shift_from(pos, p).push(p);
    assert forall|a: int, b: int| 0 <= a < b < nrv.len() implies ranks_before(
        #[trigger] nrv[a],
        #[trigger] nrv[b],
    ) by {
        if a < p && b == p {
        } else if a == p {
            assert(nrv[b] == rv[b - 1]);
        } else if b < p {
        } else if a < p {
            assert(nrv[b] == rv[b - 1]);
        } else {
            assert(nrv[a] == rv[a - 1] && nrv[b] == rv[b - 1]);
        }
    }
    assert forall|k: int| 0 <= k < i + 1 implies 0 <= #[trigger] nidx[k] < i + 1 && nrv[k] == src[nidx[k]] by {
        if k < p {
            assert(nidx[k] == idx[k]);
        } else if k > p {
            assert(nidx[k] == idx[k - 1]);
        }
    }
    assert forall|j: int| 0 <= j < i + 1 implies 0 <= #[trigger] npos[j] < i + 1 && nrv[npos[j]] == src[j] by {
        if j < i {
            assert(npos[j] == shift_from(pos, p)[j]);
            if pos[j] >= p {
                assert(nrv[pos[j] + 1] == rv[pos[j]]);
            }
        }
    }
}

/// Positions at or after `p` moved one place on.
pub open spec fn shift_from(pos: Seq<int>, p: int) -> Seq<int> {
    pos.map_values(|q: int| if q >= p { q + 1 } else { q })
}

/// The entries of a ranking under construction, as views.
pub open spec fn acc_view(acc: Seq<(Vec<char>, usize)>) -> Seq<(Seq<char>, nat)> {
    acc.map_values(|p: (Vec<char>, usize)| (p.0@, p.1 as nat))
}

/// The counted lemmas paired with their counts, in lemma order.
pub open spec fn source_pairs(ks: Seq<Seq<char>>, cs: Seq<usize>) -> Seq<(Seq<char>, nat)> {
    Seq::new(ks.len(), |j: int| (ks[j], cs[j] as nat))
}

/// Inserts `(key, c)` into a ranking at its place; returns the position.
fn insert_ranked(acc: &mut Vec<(Vec<char>, usize)>, key: Vec<char>, c: usize) -> (p: usize)
    requires
        ranked(acc_view(old(acc)@)),
        forall|k: int| 0 <= k < old(acc)@.len() ==> (#[trigger] acc_view(old(acc)@)[k]).0 != key@,
    ensures
        p <= old(acc)@.len(),
        final(acc)@.len() == old(acc)@.len() + 1,
        acc_view(final(acc)@) == acc_view(old(acc)@).insert(p as int, (key@, c as nat)),
        forall|k: int| 0 <= k < p ==> ranks_before(#[trigger] acc_view(old(acc)@)[k], (key@, c as nat)),
        forall|k: int| p <= k < old(acc)@.len() ==> ranks_before((key@, c as nat), #[trigger] acc_view(old(acc)@)[k]),
{
    let ghost rv = acc_view(acc@);
    let ghost e = (key@, c as nat);
    let mut p: usize = 0;
    while p < acc.len() && (acc[p].1 > c || (acc[p].1 == c && compare_chars(&acc[p].0, &key) == Lex::Before))
        invariant
            p <= acc@.len(),
            rv == acc_view(acc@),
            e == (key@, c as nat),
            forall|k: int| 0 <= k < p ==> ranks_before(#[trigger] rv[k], e),
        decreases acc@.len() - p,
    {
        assert(rv[p as int] == (acc@[p as int].0@, acc@[p as int].1 as nat));
        p += 1;
    }
    proof {
        if p < acc@.len() {
            assert(rv[p as int] == (acc@[p as int].0@, acc@[p as int].1 as nat));
        }
        lemma_insert_position(rv, e, p as int);
    }
    acc.insert(p, (key, c));
    assert(acc_view(acc@) =~= rv.insert(p as int, e));
    p
}
/// Sorts lemma counts by frequency, highest first; lemmas that occur equally
/// often come in lexicographic order.
pub fn hashmap_to_sorted_vec(counts: &LemmaCounts) -> (out: Vec<(String, usize)>)
    ensures
        is_ranking(pair_views(out@), counts@),
        out@.len() == counts@.dom().len(),
        forall|i: int, j: int| 0 <= i < j < out@.len() ==> out@[i].1 >= out@[j].1,
{
    proof {
        use_type_invariant(counts);
    }
    let n = counts.keys.len();
    let ghost ks = counts.lemmas();
    let ghost src = source_pairs(ks, counts.counts@);
    let mut acc: Vec<(Vec<char>, usize)> = Vec::new();
    assert(acc_view(acc@) =~= Seq::<(Seq<char>, nat)>::empty());
    let ghost mut idx: Seq<int> = seq![];
    let ghost mut pos: Seq<int> = seq![];
    for i in 0..n
        invariant
            n == counts.keys.len() == counts.counts.len(),
            ks == counts.lemmas(),
            strictly_sorted(ks),
            src == source_pairs(ks, counts.counts@),
            acc@.len() == idx.len() == pos.len() == i,
            ranked(acc_view(acc@)),
            forall|k: int| 0 <= k < i ==> 0 <= #[trigger] idx[k] < i && acc_view(acc@)[k] == src[idx[k]],
            forall|j: int| 0 <= j < i ==> 0 <= #[trigger] pos[j] < i && acc_view(acc@)[pos[j]] == src[j],
    {
        let c = counts.counts[i];
        let key = crate::text::sub_vec(&counts.keys[i], 0, counts.keys[i].len());
        let ghost rv = acc_view(acc@);
        assert(src[i as int] == (key@, c as nat));
        proof {
            lemma_new_key_distinct(rv, src, ks, idx, i as int);
        }
        let p = insert_ranked(&mut acc, key, c);
        proof {
            lemma_insert_ranked(rv, src, idx, pos, i as int, p as int);
            assert(shift_from(pos, p as int).len() == pos.len());
            idx = idx.insert(p as int, i as int);
            pos = shift_from(pos, p as int).push(p as int);
        }
    }
    let ghost rv = acc_view(acc@);
    let mut out: Vec<(String, usize)> = Vec::new();
    for k in 0..n
        invariant
            n == acc@.len() == rv.len(),
            rv == acc_view(acc@),
            out@.len() == k,
            forall|j: int| 0 <= j < k ==> (#[trigger] out@[j]).0@ == rv[j].0 && out@[j].1 == rv[j].1,
    {
        out.push((string_of(&acc[k].0), acc[k].1));
    }
    proof {
        assert(pair_views(out@) =~= rv);
        assert forall|k: int| 0 <= k < rv.len() implies counts@.contains_key(#[trigger] rv[k].0)
            && counts@[rv[k].0] == rv[k].1 by {
            let j = idx[k];
            assert(src[j] == (ks[j], counts.counts@[j] as nat));
            assert(ks.contains(ks[j]));
            lemma_position(ks, j);
        }
        assert forall|w: Seq<char>| #[trigger] counts@.contains_key(w) implies exists|k: int|
            0 <= k < rv.len() && rv[k].0 == w by {
            let j = choose|j: int| 0 <= j < ks.len() && ks[j] == w;
            assert(src[j].0 == w);
            let k = pos[j];
            assert(rv[k].0 == w);
        }
        assert forall|a: int, b: int| 0 <= a < b < out@.len() implies out@[a].1 >= out@[b].1 by {
            assert(ranks_before(rv[a], rv[b]));
            assert(rv[a].1 == out@[a].1 && rv[b].1 == out@[b].1);
        }
        // the ranking has no repeated lemma, so its length is the number of lemmas
        let lemmas = rv.map_values(|p: (Seq<char>, nat)| p.0);
        assert forall|a: int, b: int| 0 <= a < lemmas.len() && 0 <= b < lemmas.len() && a != b implies lemmas[a] != lemmas[b] by {
            lemma_ranked_distinct(rv, counts@, a, b);
        }
        lemmas.unique_seq_to_set();
        assert(lemmas.to_set() =~= counts@.dom()) by {
            assert forall|w: Seq<char>| lemmas.to_set().contains(w) <==> counts@.dom().contains(w) by {
                if lemmas.to_set().contains(w) {
                    let k = choose|k: int| 0 <= k < lemmas.len() && lemmas[k] == w;
                    assert(rv[k].0 == w);
                }
                if counts@.dom().contains(w) {
                    let k = choose|k: int| 0 <= k < rv.len() && rv[k].0 == w;
                    assert(lemmas[k] == w);
                }
            }
        }
    }
    out
}

/// How many of the best-ranked unknown lemmas a run reports.
pub const MAX_LEMMAS: usize = 15;

/// The parts of speech whose morphemes never count: auxiliary verbs,
/// supplementary symbols, particles, blanks, numerals, proper nouns and suffixes.
pub fn skipped_parts_of_speech() -> (v: Vec<String>)
    ensures
        v@.map_values(|p: String| p@) == seq![
            "助動詞"@,
            "補助記号"@,
            "助詞"@,
            "空白"@,
            "数詞"@,
            "固有名詞"@,
            "接尾辞"@,
        ],
{
    let v = vec![
        "助動詞".to_string(),
        "補助記号".to_string(),
        "助詞".to_string(),
        "空白".to_string(),
        "数詞".to_string(),
        "固有名詞".to_string(),
        "接尾辞".to_string(),
    ];
    assert(v@.map_values(|p: String| p@) =~= seq![
        "助動詞"@,
        "補助記号"@,
        "助詞"@,
        "空白"@,
        "数詞"@,
        "固有名詞"@,
        "接尾辞"@,
    ]);
    v
}

/// `top` holds the `max` best-ranked lemmas of `m` (all of them when there
/// are fewer), best first, with their counts.
pub open spec fn is_top_ranking(top: Seq<(Seq<char>, nat)>, m: Map<Seq<char>, nat>, max: nat) -> bool {
    &&& ranked(top)
    &&& forall|k: int| 0 <= k < top.len() ==> m.contains_key(#[trigger] top[k].0) && m[top[k].0] == top[k].1
    &&& top.len() == if max < m.dom().len() {
        max
    } else {
        m.dom().len()
    }
    &&& forall|w: Seq<char>|
        #![trigger m.contains_key(w)]
        m.contains_key(w) && !(exists|k: int| 0 <= k < top.len() && top[k].0 == w) ==> forall|k: int|
            0 <= k < top.len() ==> ranks_before(#[trigger] top[k], (w, m[w]))
}

/// The `max` unknown lemmas of a text that occur most often, with their
/// counts: morphemes with a skipped part of speech and known lemmas are left
/// out, the rest counted, ranked and cut.
pub fn rank_unknown_lemmas(
    morphemes: &Vec<Morpheme>,
    skip_pos: &Vec<String>,
    known: &WordSet,
    max: usize,
) -> (top: Vec<(String, usize)>)
    ensures
        is_top_ranking(
            pair_views(top@),
            tally(morphemes@, skip_pos@.map_values(|p: String| p@), known.view()),
            max as nat,
        ),
{
    let counts = count_unknown_lemmas(morphemes, skip_pos, known);
    let mut sorted = hashmap_to_sorted_vec(&counts);
    let ghost full = pair_views(sorted@);
    let ghost m = counts@;
    let n = if max < sorted.len() {
        max
    } else {
        sorted.len()
    };
    sorted.truncate(n);
    proof {
        let top = pair_views(sorted@);
        assert(top =~= full.take(n as int));
        assert forall|w: Seq<char>|
            #![trigger m.contains_key(w)]
            m.contains_key(w) && !(exists|k: int| 0 <= k < top.len() && top[k].0 == w) implies forall|k: int|
            0 <= k < top.len() ==> ranks_before(#[trigger] top[k], (w, m[w])) by {
            let j = choose|j: int| 0 <= j < full.len() && full[j].0 == w;
            if j < n {
                assert(top[j].0 == w);
            }
            assert forall|k: int| 0 <= k < top.len() implies ranks_before(#[trigger] top[k], (w, m[w])) by {
                assert(full[j] == (w, m[w]));
                assert(top[k] == full[k]);
            }
        }
    }
    sorted
}
} // verus!
