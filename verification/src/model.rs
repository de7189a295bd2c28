//! The n-gram language model and the fitness scorer.
//!
//! The model maps each n-gram that occurs in the training corpus — in a
//! window of the configured width that does not cross a word boundary —
//! to the millilog10 of its empirical probability.  Entries are kept in
//! order of first occurrence, so the model is a pure function of the
//! corpus and the width.  The scorer slides a window one character at a
//! time over a candidate plaintext and adds the model value of each
//! window, or subtracts a fixed out-of-vocabulary penalty.

use vstd::prelude::*;
use crate::text::{SPACE, contains_bytes, lemma_contains_push, lemma_deep_view_index, copy_window, find_first};
use crate::logprob::{spec_neg_millilog10, neg_millilog10, MILLILOG_FLOOR};

verus! {

broadcast use lemma_deep_view_index;

/// The penalty, in millilog10 units, for a window the model has never seen.
pub const OOV_PENALTY_MILLIS: i64 = 8000;

/// The width-`w` window of `s` that starts at `i`.
pub open spec fn window_at(s: Seq<u8>, w: int, i: int) -> Seq<u8> {
    s.subrange(i, i + w)
}

/// Whether a window crosses a word boundary.
pub open spec fn has_space(g: Seq<u8>) -> bool {
    exists|k: int| 0 <= k < g.len() && g[k] == SPACE
}

/// Whether position `i` yields a training window: in range for the scan
/// and free of spaces.
pub open spec fn retained(s: Seq<u8>, w: int, i: int) -> bool {
    &&& 0 <= i
    &&& i + w < s.len()
    &&& !has_space(window_at(s, w, i))
}

/// Occurrences of `g` among the training windows at positions below `n`.
pub open spec fn count_upto(s: Seq<u8>, w: int, g: Seq<u8>, n: int) -> int
    decreases n,
{
    if n <= 0 {
        0
    } else {
        count_upto(s, w, g, n - 1) + if retained(s, w, n - 1) && window_at(s, w, n - 1) == g {
            1int
        } else {
            0int
        }
    }
}

/// Training windows at positions below `n`.
pub open spec fn total_upto(s: Seq<u8>, w: int, n: int) -> int
    decreases n,
{
    if n <= 0 {
        0
    } else {
        total_upto(s, w, n - 1) + if retained(s, w, n - 1) {
            1int
        } else {
            0int
        }
    }
}

/// Occurrences of the n-gram `g` in the corpus `s` at width `w`.
pub open spec fn gram_count(s: Seq<u8>, w: int, g: Seq<u8>) -> int {
    count_upto(s, w, g, s.len() - w)
}

/// The number of training windows of the corpus `s` at width `w`.
pub open spec fn gram_total(s: Seq<u8>, w: int) -> int {
    total_upto(s, w, s.len() - w)
}

/// The distinct training windows at positions below `n`, in order of
/// first occurrence.
pub open spec fn distinct_upto(s: Seq<u8>, w: int, n: int) -> Seq<Seq<u8>>
    decreases n,
{
    if n <= 0 {
        Seq::empty()
    } else {
        let pre = distinct_upto(s, w, n - 1);
        if retained(s, w, n - 1) && !contains_bytes(pre, window_at(s, w, n - 1)) {
            pre.push(window_at(s, w, n - 1))
        } else {
            pre
        }
    }
}

/// The n-grams of the model built from corpus `s` at width `w`, in order.
pub open spec fn model_grams(s: Seq<u8>, w: int) -> Seq<Seq<u8>> {
    distinct_upto(s, w, s.len() - w)
}

/// The language model: parallel lists of distinct n-grams and their
/// millilog10 probabilities.
pub struct LangModel {
    /// The training width of every stored n-gram.
    pub width: usize,
    /// The distinct n-grams, in order of first occurrence in the corpus.
    pub grams: Vec<Vec<u8>>,
    /// `vals[i]` is the millilog10 probability of `grams[i]`.
    pub vals: Vec<i64>,
}

impl LangModel {
    /// Structural invariant: parallel lists, distinct space-free n-grams
    /// of the stated width, values within the millilog10 range.
    pub open spec fn wf(self) -> bool {
        &&& self.width >= 1
        &&& self.grams@.len() == self.vals@.len()
        &&& forall|i: int|
            0 <= i < self.grams@.len() ==> (#[trigger] self.grams@[i])@.len() == self.width
        &&& forall|i: int, j: int|
            0 <= i < j < self.grams@.len() ==> (#[trigger] self.grams@[i])@ != (
            #[trigger] self.grams@[j])@
        &&& forall|i: int|
            0 <= i < self.vals@.len() ==> MILLILOG_FLOOR <= #[trigger] self.vals@[i] <= 0
    }

    /// Whether the model has an entry for the n-gram `g`.
    pub open spec fn contains_gram(self, g: Seq<u8>) -> bool {
        contains_bytes(self.grams.deep_view(), g)
    }

    /// The stored millilog10 probability of `g` (meaningful when present).
    pub open spec fn value_of(self, g: Seq<u8>) -> int {
        let i = choose|i: int| 0 <= i < self.grams@.len() && self.grams@[i]@ == g;
        self.vals@[i] as int
    }

    /// The number of entries.
    pub fn len(&self) -> (n: usize)
        ensures
            n == self.grams@.len(),
    {
        self.grams.len()
    }

    /// The stored value of the n-gram `g`, if the model has seen it.
    pub fn lookup(&self, g: &Vec<u8>) -> (r: Option<i64>)
        requires
            self.wf(),
        ensures
            r is Some <==> self.contains_gram(g@),
            r is Some ==> r->Some_0 == self.value_of(g@),
    {
        match find_first(&self.grams, g) {
            Some(j) => {
                proof {
                    lemma_value_at_index(*self, j as int);
                }
                Some(self.vals[j])
            },
            None => None,
        }
    }
}

/// The stored value at an index is the value of the n-gram at that index.
pub proof fn lemma_value_at_index(m: LangModel, j: int)
    requires
        m.wf(),
        0 <= j < m.grams@.len(),
    ensures
        m.contains_gram(m.grams@[j]@),
        m.value_of(m.grams@[j]@) == m.vals@[j],
{
    let g = m.grams@[j]@;
    assert(m.grams.deep_view()[j] == g);
    let i0 = choose|i: int| 0 <= i < m.grams@.len() && m.grams@[i]@ == g;
    assert(0 <= i0 < m.grams@.len() && m.grams@[i0]@ == g);
    if i0 != j {
        if i0 < j {
            assert(m.grams@[i0]@ != m.grams@[j]@);
        } else {
            assert(m.grams@[j]@ != m.grams@[i0]@);
        }
        assert(false);
    }
}

/// What it is to be the model of a given corpus and width: the n-grams
/// are the distinct training windows in first-occurrence order, and each
/// value is the millilog10 of that n-gram's empirical probability.
pub open spec fn is_model_of(m: LangModel, corpus: Seq<u8>, w: int) -> bool {
    &&& m.width == w
    &&& m.grams.deep_view() == model_grams(corpus, w)
    &&& m.vals@.len() == m.grams@.len()
    &&& forall|i: int|
        0 <= i < m.grams@.len() ==> #[trigger] m.vals@[i] == spec_neg_millilog10(
            gram_count(corpus, w, m.grams@[i]@),
            gram_total(corpus, w),
        )
}

/// Counts are non-negative and no larger than the window total, which is
/// itself at most `n`.
pub proof fn lemma_count_bounds(s: Seq<u8>, w: int, g: Seq<u8>, n: int)
    ensures
        0 <= count_upto(s, w, g, n) <= total_upto(s, w, n),
        total_upto(s, w, n) <= (if n >= 0 { n } else { 0 }),
    decreases n,
{
    if n > 0 {
        lemma_count_bounds(s, w, g, n - 1);
    }
}

/// An n-gram is among the distinct windows below `n` exactly when it has
/// occurred below `n`.
pub proof fn lemma_distinct_iff_count(s: Seq<u8>, w: int, g: Seq<u8>, n: int)
    ensures
        contains_bytes(distinct_upto(s, w, n), g) <==> count_upto(s, w, g, n) > 0,
    decreases n,
{
    lemma_count_bounds(s, w, g, n);
    if n > 0 {
        lemma_distinct_iff_count(s, w, g, n - 1);
        lemma_count_bounds(s, w, g, n - 1);
        let pre = distinct_upto(s, w, n - 1);
        if retained(s, w, n - 1) && !contains_bytes(pre, window_at(s, w, n - 1)) {
            lemma_contains_push(pre, window_at(s, w, n - 1), g);
        }
    }
}

/// The distinct windows below `n` are pairwise distinct, space-free and
/// of width `w`.
pub proof fn lemma_distinct_props(s: Seq<u8>, w: int, n: int)
    requires
        w >= 1,
    ensures
        forall|i: int, j: int|
            0 <= i < j < distinct_upto(s, w, n).len() ==> #[trigger] distinct_upto(s, w, n)[i]
                != #[trigger] distinct_upto(s, w, n)[j],
        forall|i: int|
            0 <= i < distinct_upto(s, w, n).len() ==> (#[trigger] distinct_upto(s, w, n)[i]).len()
                == w,
        forall|i: int|
            0 <= i < distinct_upto(s, w, n).len() ==> !has_space(
                #[trigger] distinct_upto(s, w, n)[i],
            ),
    decreases n,
{
    if n > 0 {
        lemma_distinct_props(s, w, n - 1);
        let pre = distinct_upto(s, w, n - 1);
        let win = window_at(s, w, n - 1);
        if retained(s, w, n - 1) && !contains_bytes(pre, win) {
            assert forall|i: int| 0 <= i < pre.len() implies pre[i] != win by {
                if pre[i] == win {
                    assert(contains_bytes(pre, win));
                }
            }
            assert(distinct_upto(s, w, n) == pre.push(win));
        }
    }
}

/// Whether the byte string contains a space.
fn contains_space(v: &Vec<u8>) -> (b: bool)
    ensures
        b == has_space(v@),
{
    let mut i: usize = 0;
    while i < v.len()
        invariant
            i <= v.len(),
            forall|k: int| 0 <= k < i ==> v@[k] != SPACE,
        decreases v.len() - i,
    {
        if v[i] == SPACE {
            return true;
        }
        i = i + 1;
    }
    false
}

/// Builds the language model of a corpus: every space-free window of the
/// given width is counted, and each distinct one is stored with the
/// millilog10 of its empirical probability.
pub fn build_model(corpus: &Vec<u8>, width: usize) -> (m: LangModel)
    requires
        1 <= width,
    ensures
        m.wf(),
        is_model_of(m, corpus@, width as int),
        forall|g: Seq<u8>| m.contains_gram(g) <==> gram_count(corpus@, width as int, g) > 0,
{
    let ghost s = corpus@;
    let ghost w = width as int;
    let n = corpus.len();
    let mut grams: Vec<Vec<u8>> = Vec::new();
    let mut counts: Vec<u64> = Vec::new();
    let mut total: u64 = 0;

    if width < n {
        let limit = n - width;
        let mut i: usize = 0;
        while i < limit
            invariant
                limit == n - width,
                width < n,
                s == corpus@,
                n == s.len(),
                w == width as int,
                1 <= width,
                i <= limit,
                grams.deep_view() == distinct_upto(s, w, i as int),
                counts@.len() == grams@.len(),
                forall|j: int|
                    0 <= j < counts@.len() ==> #[trigger] counts@[j] == count_upto(
                        s,
                        w,
                        grams@[j]@,
                        i as int,
                    ),
                forall|j: int| 0 <= j < counts@.len() ==> 1 <= #[trigger] counts@[j],
                total == total_upto(s, w, i as int),
            decreases limit - i,
        {
            proof {
                lemma_distinct_props(s, w, i as int);
                lemma_count_bounds(s, w, Seq::empty(), i as int);
            }
            let win = copy_window(corpus, i, width);
            let space = contains_space(&win);
            assert(win@ == window_at(s, w, i as int));
            if !space {
                assert(retained(s, w, i as int));
                match find_first(&grams, &win) {
                    Some(j) => {
                        proof {
                            // every other entry differs from the window, so
                            // only entry j's count grows
                            assert(contains_bytes(distinct_upto(s, w, i as int), win@));
                            lemma_distinct_iff_count(s, w, win@, i as int);
                            lemma_count_bounds(s, w, win@, i as int);
                            assert forall|jj: int|
                                0 <= jj < counts@.len() && jj != j implies grams@[jj]@
                                != win@ by {
                                let d = distinct_upto(s, w, i as int);
                                assert(d[jj] == grams@[jj]@);
                                assert(d[j as int] == grams@[j as int]@);
                                if jj < j {
                                    assert(d[jj] != d[j as int]);
                                } else {
                                    assert(d[j as int] != d[jj]);
                                }
                                assert(grams@[j as int]@ == win@);
                            }
                        }
                        let cj = counts[j];
                        assert(cj as int == count_upto(s, w, grams@[j as int]@, i as int));
                        assert(cj < u64::MAX) by {
                            lemma_count_bounds(s, w, grams@[j as int]@, i as int);
                        }
                        counts[j] = cj + 1;
                        assert(distinct_upto(s, w, i + 1) == distinct_upto(s, w, i as int));
                    },
                    None => {
                        proof {
                            lemma_distinct_iff_count(s, w, win@, i as int);
                            lemma_count_bounds(s, w, win@, i as int);
                        }
                        assert(count_upto(s, w, win@, i as int) == 0);
                        grams.push(win);
                        counts.push(1);
                        proof {
                            assert(grams.deep_view() =~= distinct_upto(s, w, i as int).push(
                                window_at(s, w, i as int),
                            ));
                            assert(distinct_upto(s, w, i + 1) == distinct_upto(s, w, i as int).push(
                                window_at(s, w, i as int),
                            ));
                        }
                    },
                }
                assert(total as int == total_upto(s, w, i as int));
                assert(total_upto(s, w, i + 1) == total_upto(s, w, i as int) + 1);
                assert(total < u64::MAX) by {
                    lemma_count_bounds(s, w, Seq::empty(), i as int);
                }
                total = total + 1;
            } else {
                assert(!retained(s, w, i as int));
                assert(distinct_upto(s, w, i + 1) == distinct_upto(s, w, i as int));
                assert(total_upto(s, w, i + 1) == total_upto(s, w, i as int));
            }
            i = i + 1;
        }
        assert(i == limit);
        assert(grams.deep_view() == distinct_upto(s, w, s.len() - w));
    } else {
        assert(s.len() - w <= 0);
        assert(distinct_upto(s, w, s.len() - w) =~= Seq::<Seq<u8>>::empty());
        assert(grams.deep_view() =~= Seq::<Seq<u8>>::empty());
    }

    // Convert counts to millilog10 probabilities.
    let ghost gtotal = gram_total(s, w);
    assert(total == gtotal);
    let mut vals: Vec<i64> = Vec::new();
    let mut j: usize = 0;
    while j < counts.len()
        invariant
            grams.deep_view() == model_grams(s, w),
            counts@.len() == grams@.len(),
            forall|k: int|
                0 <= k < counts@.len() ==> #[trigger] counts@[k] == gram_count(s, w, grams@[k]@),
            forall|k: int| 0 <= k < counts@.len() ==> 1 <= #[trigger] counts@[k],
            total == gram_total(s, w),
            j <= counts@.len(),
            vals@.len() == j,
            forall|k: int|
                0 <= k < j ==> #[trigger] vals@[k] == spec_neg_millilog10(
                    gram_count(s, w, grams@[k]@),
                    gram_total(s, w),
                ),
            forall|k: int| 0 <= k < j ==> MILLILOG_FLOOR <= #[trigger] vals@[k] <= 0,
        decreases counts@.len() - j,
    {
        let c = counts[j];
        proof {
            lemma_count_bounds(s, w, grams@[j as int]@, s.len() - w);
        }
        assert(1 <= c && c <= total);
        let v = neg_millilog10(c, total);
        vals.push(v);
        j = j + 1;
    }

    let m = LangModel { width, grams, vals };
    proof {
        lemma_distinct_props(s, w, s.len() - w);
        let d = model_grams(s, w);
        assert forall|i: int|
            0 <= i < m.grams@.len() implies (#[trigger] m.grams@[i])@.len() == m.width by {
            assert(d[i] == m.grams@[i]@);
        }
        assert forall|i: int, j: int|
            0 <= i < j < m.grams@.len() implies (#[trigger] m.grams@[i])@ != (
        #[trigger] m.grams@[j])@ by {
            assert(d[i] == m.grams@[i]@);
            assert(d[j] == m.grams@[j]@);
            assert(d[i] != d[j]);
        }
        assert forall|g: Seq<u8>| m.contains_gram(g) <==> gram_count(s, w, g) > 0 by {
            lemma_distinct_iff_count(s, w, g, s.len() - w);
        }
    }
    m
}

/// The score contribution of the window of `p` that starts at `i`.
pub open spec fn score_contrib(p: Seq<u8>, w: int, m: LangModel, i: int) -> int {
    let win = p.subrange(i, i + w);
    if m.contains_gram(win) {
        m.value_of(win)
    } else {
        -(OOV_PENALTY_MILLIS as int)
    }
}

/// The sum of the contributions of the windows starting below `n`.
pub open spec fn score_upto(p: Seq<u8>, w: int, m: LangModel, n: int) -> int
    decreases n,
{
    if n <= 0 {
        0
    } else {
        score_upto(p, w, m, n - 1) + score_contrib(p, w, m, n - 1)
    }
}

/// The fitness of a plaintext: the summed millilog10 probability of every
/// width-`w` window starting before `p.len() - w`, with the penalty for
/// windows the model lacks.  Zero when the plaintext is no longer than `w`.
pub open spec fn spec_score(p: Seq<u8>, w: int, m: LangModel) -> int {
    score_upto(p, w, m, p.len() - w)
}

/// Scores the fluency of a plaintext against the language model.
///
/// The result is a pure function of the plaintext, the width and the
/// model, so scoring the same plaintext twice yields identical fitness.
pub fn score(plaintext: &Vec<u8>, ngram: usize, table: &LangModel) -> (r: i64)
    requires
        table.wf(),
        1 <= ngram,
        plaintext@.len() <= 0x1000_0000,
    ensures
        r == spec_score(plaintext@, ngram as int, *table),
        (MILLILOG_FLOOR as int) * (plaintext@.len() as int) <= r <= 0,
{
    let ghost p = plaintext@;
    let ghost w = ngram as int;
    let n = plaintext.len();
    let mut acc: i64 = 0;
    if ngram < n {
        let limit = n - ngram;
        let mut i: usize = 0;
        while i < limit
            invariant
                limit == n - ngram,
                ngram < n,
                p == plaintext@,
                n == p.len(),
                w == ngram as int,
                1 <= ngram,
                n <= 0x1000_0000,
                table.wf(),
                i <= limit,
                acc == score_upto(p, w, *table, i as int),
                (MILLILOG_FLOOR as int) * (i as int) <= acc <= 0,
            decreases limit - i,
        {
            let win = copy_window(plaintext, i, ngram);
            assert(win@ == p.subrange(i as int, i + w));
            let term: i64 = match find_first(&table.grams, &win) {
                Some(j) => {
                    proof {
                        lemma_value_at_index(*table, j as int);
                        assert forall|jj: int|
                            0 <= jj < table.grams@.len() && jj != j implies table.grams@[jj]@
                            != win@ by {
                            if jj < j {
                                assert(table.grams@[jj]@ != table.grams@[j as int]@);
                            }
                        }
                    }
                    assert(table.value_of(win@) == table.vals@[j as int]);
                    table.vals[j]
                },
                None => -OOV_PENALTY_MILLIS,
            };
            assert(term == score_contrib(p, w, *table, i as int));
            assert(MILLILOG_FLOOR <= term <= 0);
            proof {
                assert((MILLILOG_FLOOR as int) * ((i + 1) as int) == (MILLILOG_FLOOR as int) * (
                i as int) + MILLILOG_FLOOR) by (nonlinear_arith);
            }
            acc = acc + term;
            i = i + 1;
        }
        assert(acc == score_upto(p, w, *table, p.len() - w));
        proof {
            assert((MILLILOG_FLOOR as int) * (limit as int) >= (MILLILOG_FLOOR as int) * (
            n as int)) by (nonlinear_arith)
                requires (limit as int) <= (n as int);
        }
    } else {
        assert(p.len() - w <= 0);
        assert(score_upto(p, w, *table, p.len() - w) == 0);
        proof {
            assert((MILLILOG_FLOOR as int) * (n as int) <= 0) by (nonlinear_arith)
                requires (n as int) >= 0;
        }
    }
    acc
}

/// Model determinism: two models of the same corpus and width are
/// identical — same width, same n-grams in the same order, same values.
/// Building the model twice can therefore never disagree.
pub proof fn lemma_model_determinism(m1: LangModel, m2: LangModel, corpus: Seq<u8>, w: int)
    requires
        is_model_of(m1, corpus, w),
        is_model_of(m2, corpus, w),
    ensures
        m1.width == m2.width,
        m1.grams.deep_view() == m2.grams.deep_view(),
        m1.vals@ == m2.vals@,
{
    assert(m1.grams@.len() == m1.grams.deep_view().len());
    assert(m2.grams@.len() == m2.grams.deep_view().len());
    assert forall|i: int| 0 <= i < m1.vals@.len() implies m1.vals@[i] == m2.vals@[i] by {
        assert(m1.grams@[i]@ == m1.grams.deep_view()[i]);
        assert(m2.grams@[i]@ == m2.grams.deep_view()[i]);
    }
    assert(m1.vals@ =~= m2.vals@);
}

/// When every window of `p` below `n` is the same n-gram `x`, the score
/// of those windows is `n` times the contribution of `x`.
pub proof fn lemma_const_windows_score(p: Seq<u8>, w: int, m: LangModel, x: Seq<u8>, n: int)
    requires
        0 <= n,
        forall|i: int| 0 <= i < n ==> #[trigger] p.subrange(i, i + w) == x,
    ensures
        score_upto(p, w, m, n) == n * (if m.contains_gram(x) {
            m.value_of(x)
        } else {
            -(OOV_PENALTY_MILLIS as int)
        }),
    decreases n,
{
    let v: int = if m.contains_gram(x) {
        m.value_of(x)
    } else {
        -(OOV_PENALTY_MILLIS as int)
    };
    if n == 0 {
        assert(score_upto(p, w, m, 0) == 0);
        assert(0 * v == 0) by (nonlinear_arith);
    } else {
        lemma_const_windows_score(p, w, m, x, n - 1);
        assert(score_contrib(p, w, m, n - 1) == v);
        assert(n * v == (n - 1) * v + v) by (nonlinear_arith);
    }
}

/// Scorer preference for known n-grams: with the model held fixed, a
/// plaintext whose every window is an n-gram the model knows — at a
/// value above the out-of-vocabulary floor — scores strictly higher
/// than an equally long plaintext whose every window is an n-gram the
/// model has never seen.
pub proof fn lemma_scorer_prefers_known(
    p1: Seq<u8>,
    p2: Seq<u8>,
    w: int,
    m: LangModel,
    g: Seq<u8>,
    b: Seq<u8>,
)
    requires
        1 <= w,
        m.contains_gram(g),
        m.value_of(g) > -(OOV_PENALTY_MILLIS as int),
        !m.contains_gram(b),
        p1.len() == p2.len(),
        p1.len() > w,
        forall|i: int| 0 <= i < p1.len() - w ==> #[trigger] p1.subrange(i, i + w) == g,
        forall|i: int| 0 <= i < p2.len() - w ==> #[trigger] p2.subrange(i, i + w) == b,
    ensures
        spec_score(p1, w, m) > spec_score(p2, w, m),
{
    let n = p1.len() - w;
    lemma_const_windows_score(p1, w, m, g, n);
    lemma_const_windows_score(p2, w, m, b, n);
    let v = m.value_of(g);
    assert(n * v > n * (-(OOV_PENALTY_MILLIS as int))) by (nonlinear_arith)
        requires n >= 1, v > -(OOV_PENALTY_MILLIS as int);
}

/// Scoring idempotence: the fitness of a plaintext is a pure function of
/// the plaintext, the width and the model, so two scorings of the same
/// plaintext with the same model are bit-identical.
pub proof fn lemma_score_reproducible(r1: int, r2: int, p: Seq<u8>, w: int, m: LangModel)
    requires
        r1 == spec_score(p, w, m),
        r2 == spec_score(p, w, m),
    ensures
        r1 == r2,
{
}

} // verus!
