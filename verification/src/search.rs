//! The stochastic hill-climbing search through key space.
//!
//! Each phase uppercases the ciphertext, assigns its distinct
//! non-overlapping windows to the first key slots in first-occurrence
//! order, and then repeatedly swaps two random slots, keeping a
//! candidate exactly when it scores strictly higher.  A phase ends once
//! the no-improvement counter passes the plateau limit; because the
//! fitness is bounded and strictly rises on every accepted swap, every
//! phase is proved to halt.

use vstd::prelude::*;
use vstd::arithmetic::div_mod::{lemma_fundamental_div_mod, lemma_mod_bound};
use vstd::arithmetic::mul::lemma_mul_inequality;
use crate::text::{contains_bytes, lemma_deep_view_index, copy_window, copy_bytes, find_first, ascii_uppercase, spec_upper};
use crate::model::{LangModel, spec_score, score};
use crate::plaintext::{KEY_SLOTS, spec_build_plaintext, build_plaintext};
use crate::logprob::MILLILOG_FLOOR;
use rand::RngExt;

verus! {

broadcast use lemma_deep_view_index;

/// The number of consecutive non-improving mutations after which one
/// search phase stops.
pub const PLATEAU_LIMIT: u32 = 1000;

/// Relies on `rand::rng` and `rand::RngExt::random_range`: the result
/// is drawn from the non-empty range `0..26`, so it is a valid key slot
/// index.  Nothing else — in particular no distribution — is assumed of
/// it, and two calls may differ.
#[verifier::external_body]
fn random_slot_index() -> (r: usize)
    ensures
        r < KEY_SLOTS,
{
    rand::rng().random_range(0..26)
}

/// The non-overlapping width-`g` window of `s` at window index `k`.
pub open spec fn cipher_window(s: Seq<u8>, g: int, k: int) -> Seq<u8> {
    s.subrange(k * g, k * g + g)
}

/// The distinct members of the first `n` non-overlapping windows of `s`,
/// in first-occurrence order.
pub open spec fn distinct_windows_upto(s: Seq<u8>, g: int, n: int) -> Seq<Seq<u8>>
    decreases n,
{
    if n <= 0 || g < 1 {
        Seq::empty()
    } else {
        let pre = distinct_windows_upto(s, g, n - 1);
        if contains_bytes(pre, cipher_window(s, g, n - 1)) {
            pre
        } else {
            pre.push(cipher_window(s, g, n - 1))
        }
    }
}

/// The ciphertext n-gram set: the distinct non-overlapping windows of
/// `s` at width `g`, in first-occurrence order (a ragged suffix is
/// dropped).
pub open spec fn spec_distinct_windows(s: Seq<u8>, g: int) -> Seq<Seq<u8>> {
    if g >= 1 {
        distinct_windows_upto(s, g, s.len() as int / g)
    } else {
        Seq::empty()
    }
}

/// Collects the distinct non-overlapping windows of `c`, in order of
/// first occurrence.
pub fn distinct_windows(c: &Vec<u8>, g: usize) -> (r: Vec<Vec<u8>>)
    requires
        1 <= g,
    ensures
        r.deep_view() == spec_distinct_windows(c@, g as int),
{
    let ghost s = c@;
    let n = c.len();
    let count = n / g;
    proof {
        lemma_fundamental_div_mod(n as int, g as int);
        lemma_mod_bound(n as int, g as int);
    }
    let mut r: Vec<Vec<u8>> = Vec::new();
    let mut k: usize = 0;
    while k < count
        invariant
            s == c@,
            n == s.len(),
            1 <= g,
            count == n as int / g as int,
            (count as int) * (g as int) <= n,
            k <= count,
            r.deep_view() == distinct_windows_upto(s, g as int, k as int),
        decreases count - k,
    {
        proof {
            lemma_mul_inequality(k + 1, count as int, g as int);
        }
        assert((k + 1) * (g as int) <= n);
        assert((k as int) * (g as int) + g <= n) by (nonlinear_arith)
            requires ((k as int) + 1) * (g as int) <= n as int;
        let start = k * g;
        let win = copy_window(c, start, g);
        assert(win@ == cipher_window(s, g as int, k as int));
        match find_first(&r, &win) {
            Some(_) => {
                assert(contains_bytes(distinct_windows_upto(s, g as int, k as int), win@));
            },
            None => {
                r.push(win);
                assert(r.deep_view() =~= distinct_windows_upto(s, g as int, k as int).push(
                    cipher_window(s, g as int, k as int),
                ));
            },
        }
        k = k + 1;
    }
    r
}

/// The initial hypothesis key: each distinct ciphertext window fills one
/// slot, in order; the remaining slots stay empty.
pub open spec fn spec_initial_key(wins: Seq<Seq<u8>>) -> Seq<Seq<u8>> {
    Seq::new(KEY_SLOTS as nat, |i: int| if i < wins.len() { wins[i] } else { Seq::empty() })
}

/// Builds the initial key from the distinct ciphertext windows.
pub fn init_key(wins: &Vec<Vec<u8>>) -> (key: Vec<Vec<u8>>)
    requires
        wins@.len() <= KEY_SLOTS,
    ensures
        key@.len() == KEY_SLOTS,
        key.deep_view() == spec_initial_key(wins.deep_view()),
{
    let mut key: Vec<Vec<u8>> = Vec::new();
    let mut i: usize = 0;
    while i < wins.len()
        invariant
            wins@.len() <= KEY_SLOTS,
            i <= wins@.len(),
            key@.len() == i,
            forall|k: int| 0 <= k < i ==> key@[k]@ == wins@[k]@,
        decreases wins.len() - i,
    {
        key.push(copy_bytes(&wins[i]));
        i = i + 1;
    }
    while i < KEY_SLOTS
        invariant
            wins@.len() <= KEY_SLOTS,
            wins@.len() <= i <= KEY_SLOTS,
            key@.len() == i,
            forall|k: int| 0 <= k < wins@.len() ==> key@[k]@ == wins@[k]@,
            forall|k: int| wins@.len() <= k < i ==> key@[k]@ == Seq::<u8>::empty(),
        decreases KEY_SLOTS - i,
    {
        key.push(Vec::new());
        i = i + 1;
    }
    proof {
        let kd = key.deep_view();
        let ik = spec_initial_key(wins.deep_view());
        assert forall|k: int| 0 <= k < KEY_SLOTS implies kd[k] == ik[k] by {
            assert(kd[k] == key@[k]@);
            if k < wins@.len() {
                assert(wins.deep_view()[k] == wins@[k]@);
            }
        }
        assert(kd =~= ik);
    }
    key
}

/// Copies a key slot by slot.
fn copy_key(key: &Vec<Vec<u8>>) -> (r: Vec<Vec<u8>>)
    ensures
        r@.len() == key@.len(),
        r.deep_view() == key.deep_view(),
{
    let mut r: Vec<Vec<u8>> = Vec::new();
    let mut i: usize = 0;
    while i < key.len()
        invariant
            i <= key@.len(),
            r@.len() == i,
            forall|k: int| 0 <= k < i ==> r@[k]@ == key@[k]@,
        decreases key.len() - i,
    {
        r.push(copy_bytes(&key[i]));
        i = i + 1;
    }
    assert(r.deep_view() =~= key.deep_view());
    r
}

/// A key with the contents of slots `i` and `j` exchanged.
pub open spec fn spec_swapped(kv: Seq<Seq<u8>>, i: int, j: int) -> Seq<Seq<u8>> {
    kv.update(i, kv[j]).update(j, kv[i])
}

/// The state of one hill-climbing phase: the current hypothesis key, the
/// plaintext and fitness it yields, and the count of consecutive
/// non-improving mutations.
pub struct SearchState {
    /// The current hypothesis key.
    pub key: Vec<Vec<u8>>,
    /// The plaintext the current key reconstructs.
    pub plaintext: Vec<u8>,
    /// The fitness of that plaintext.
    pub fitness: i64,
    /// How many mutations in a row failed to improve the fitness.
    pub stall: u32,
}

impl SearchState {
    /// Consistency with a ciphertext, a scoring width and a model: the
    /// plaintext and the fitness are exactly those the key yields.
    pub open spec fn wf(self, cipher: Seq<u8>, w: int, m: LangModel) -> bool {
        &&& self.key@.len() == KEY_SLOTS
        &&& self.plaintext@ == spec_build_plaintext(cipher, self.key.deep_view())
        &&& self.plaintext@.len() <= cipher.len()
        &&& self.fitness == spec_score(self.plaintext@, w, m)
        &&& self.fitness <= 0
        &&& (MILLILOG_FLOOR as int) * (cipher.len() as int) <= self.fitness
    }
}

/// One mutation step: swaps slots `i` and `j` of the key, rebuilds and
/// rescores the plaintext, and keeps the candidate exactly when it
/// scores strictly higher.
///
/// On a strict improvement the candidate key, plaintext and fitness are
/// adopted and the no-improvement counter resets to 0; otherwise the
/// state is unchanged and the counter grows by exactly 1.
pub fn search_step(
    st: &mut SearchState,
    cipher: &Vec<u8>,
    ngram: usize,
    table: &LangModel,
    i: usize,
    j: usize,
)
    requires
        old(st).wf(cipher@, ngram as int, *table),
        table.wf(),
        1 <= ngram,
        cipher@.len() <= 0x1000_0000,
        i < KEY_SLOTS,
        j < KEY_SLOTS,
        old(st).stall <= PLATEAU_LIMIT,
    ensures
        final(st).wf(cipher@, ngram as int, *table),
        ({
            let ck = spec_swapped(old(st).key.deep_view(), i as int, j as int);
            let cp = spec_build_plaintext(cipher@, ck);
            let cf = spec_score(cp, ngram as int, *table);
            if cf > old(st).fitness {
                &&& final(st).key.deep_view() == ck
                &&& final(st).plaintext@ == cp
                &&& final(st).fitness == cf
                &&& final(st).stall == 0
            } else {
                &&& final(st).key.deep_view() == old(st).key.deep_view()
                &&& final(st).plaintext@ == old(st).plaintext@
                &&& final(st).fitness == old(st).fitness
                &&& final(st).stall == old(st).stall + 1
            }
        }),
{
    let ghost kv = st.key.deep_view();
    let mut ckey = copy_key(&st.key);
    let a = copy_bytes(&ckey[i]);
    let b = copy_bytes(&ckey[j]);
    ckey[i] = b;
    ckey[j] = a;
    proof {
        assert(ckey.deep_view() =~= spec_swapped(kv, i as int, j as int));
    }
    let cand_plaintext = build_plaintext(cipher, &ckey);
    let cand_fitness = score(&cand_plaintext, ngram, table);
    proof {
        assert((MILLILOG_FLOOR as int) * (cipher@.len() as int) <= (MILLILOG_FLOOR as int) * (
        cand_plaintext@.len() as int)) by (nonlinear_arith)
            requires
                (cand_plaintext@.len() as int) <= (cipher@.len() as int),
                MILLILOG_FLOOR < 0,
        ;
    }
    if cand_fitness > st.fitness {
        st.key = ckey;
        st.plaintext = cand_plaintext;
        st.fitness = cand_fitness;
        st.stall = 0;
    } else {
        st.stall = st.stall + 1;
    }
}

/// One full search phase on a ciphertext: normalizes it, derives the
/// initial key from its distinct windows, and mutates until the
/// no-improvement counter passes the plateau limit.
///
/// The returned state is consistent — its plaintext and fitness are
/// those of its key — and its counter has just passed the limit.  The
/// loop terminates because every accepted mutation strictly raises the
/// bounded fitness and every rejected one raises the bounded counter.
pub fn search_phase(
    cipher: &Vec<u8>,
    ngram_ssc: usize,
    ngram_freq: usize,
    table: &LangModel,
) -> (st: SearchState)
    requires
        table.wf(),
        1 <= ngram_ssc,
        1 <= ngram_freq,
        cipher@.len() <= 0x1000_0000,
        spec_distinct_windows(spec_upper(cipher@), ngram_ssc as int).len() <= KEY_SLOTS,
    ensures
        st.wf(spec_upper(cipher@), ngram_freq as int, *table),
        st.key.deep_view().len() == KEY_SLOTS,
        st.stall == PLATEAU_LIMIT + 1,
{
    let up = ascii_uppercase(cipher);
    let wins = distinct_windows(&up, ngram_ssc);
    assert(wins@.len() == wins.deep_view().len());
    let key = init_key(&wins);
    let plaintext = build_plaintext(&up, &key);
    let fitness = score(&plaintext, ngram_freq, table);
    proof {
        assert((MILLILOG_FLOOR as int) * (up@.len() as int) <= (MILLILOG_FLOOR as int) * (
        plaintext@.len() as int)) by (nonlinear_arith)
            requires
                (plaintext@.len() as int) <= (up@.len() as int),
                MILLILOG_FLOOR < 0,
        ;
    }
    let mut st = SearchState { key, plaintext, fitness, stall: 0 };
    while st.stall <= PLATEAU_LIMIT
        invariant
            up@ == spec_upper(cipher@),
            up@.len() == cipher@.len(),
            cipher@.len() <= 0x1000_0000,
            table.wf(),
            1 <= ngram_freq,
            st.wf(up@, ngram_freq as int, *table),
            st.stall <= PLATEAU_LIMIT + 1,
        decreases 0 - st.fitness, PLATEAU_LIMIT + 1 - st.stall,
    {
        let i = random_slot_index();
        let j = random_slot_index();
        search_step(&mut st, &up, ngram_freq, table, i, j);
    }
    assert(up@ == spec_upper(cipher@));
    st
}

} // verus!
