//! Reconstruction of a candidate plaintext from a ciphertext and a
//! hypothesis key.
//!
//! A key is a list of 26 slots, one per plaintext letter `A`..`Z`; each
//! slot holds a ciphertext n-gram or is empty ("unassigned").  The
//! ciphertext is read in non-overlapping windows of the substitution
//! width; a window matching a slot's n-gram becomes that slot's letter,
//! and a window no slot covers becomes one placeholder per ciphertext
//! character.  A ragged suffix shorter than one window is dropped.

use vstd::prelude::*;
use crate::text::{PLACEHOLDER, copy_window, lemma_deep_view_index, bytes_eq};

verus! {

broadcast use lemma_deep_view_index;

/// The number of slots of a key, one per plaintext letter.
pub const KEY_SLOTS: usize = 26;

/// The substitution width of a key: the length of its first non-empty
/// slot, or 1 when every slot is empty.
pub open spec fn spec_sub_width(key: Seq<Seq<u8>>) -> int
    decreases key.len(),
{
    if key.len() == 0 {
        1
    } else if key[0].len() > 0 {
        key[0].len() as int
    } else {
        spec_sub_width(key.skip(1))
    }
}

/// The substitution width is always positive.
pub proof fn lemma_sub_width_pos(key: Seq<Seq<u8>>)
    ensures
        spec_sub_width(key) >= 1,
    decreases key.len(),
{
    if key.len() > 0 && key[0].len() == 0 {
        lemma_sub_width_pos(key.skip(1));
    }
}

/// The slot whose n-gram equals the window, the highest such index when
/// several slots hold the same n-gram: a later slot shadows an earlier
/// one, as repeated insertion into an inverse map would.
pub open spec fn spec_last_match(key: Seq<Seq<u8>>, win: Seq<u8>) -> Option<int>
    decreases key.len(),
{
    if key.len() == 0 {
        None
    } else if key.last() == win {
        Some(key.len() - 1)
    } else {
        spec_last_match(key.drop_last(), win)
    }
}

/// When exactly one slot holds the window, the match is that slot.
pub proof fn lemma_last_match_unique(key: Seq<Seq<u8>>, win: Seq<u8>, t: int)
    requires
        0 <= t < key.len(),
        key[t] == win,
        forall|i: int| 0 <= i < key.len() && i != t ==> key[i] != win,
    ensures
        spec_last_match(key, win) == Some(t),
    decreases key.len(),
{
    if t == key.len() - 1 {
        assert(key.last() == win);
    } else {
        assert(key.last() != win);
        lemma_last_match_unique(key.drop_last(), win, t);
    }
}

/// The reconstruction of `c` by `key` at substitution width `g`: window
/// by window, a matched window becomes one letter, an unmatched one a
/// placeholder block of width `g`.
pub open spec fn spec_plaintext_units(c: Seq<u8>, key: Seq<Seq<u8>>, g: int) -> Seq<u8>
    decreases c.len(),
{
    if g < 1 || c.len() < g {
        Seq::empty()
    } else {
        let piece = match spec_last_match(key, c.subrange(0, g)) {
            Some(i) => seq![(65 + i) as u8],
            None => Seq::new(g as nat, |k: int| PLACEHOLDER),
        };
        piece + spec_plaintext_units(c.skip(g), key, g)
    }
}

/// The plaintext that `key` reconstructs from `c`, at the key's own
/// substitution width.
pub open spec fn spec_build_plaintext(c: Seq<u8>, key: Seq<Seq<u8>>) -> Seq<u8> {
    spec_plaintext_units(c, key, spec_sub_width(key))
}

/// The substitution width of a key: the length of its first non-empty
/// slot, 1 for an entirely empty key.
pub fn sub_width(key: &Vec<Vec<u8>>) -> (g: usize)
    ensures
        g == spec_sub_width(key.deep_view()),
        g >= 1,
{
    let ghost kv = key.deep_view();
    proof {
        lemma_sub_width_pos(kv);
    }
    let mut i: usize = 0;
    assert(kv.skip(0) =~= kv);
    while i < key.len()
        invariant
            kv == key.deep_view(),
            i <= key.len(),
            kv.len() == key@.len(),
            spec_sub_width(kv) == spec_sub_width(kv.skip(i as int)),
        decreases key.len() - i,
    {
        if key[i].len() > 0 {
            assert(kv.skip(i as int)[0] == kv[i as int]);
            assert(kv[i as int].len() > 0);
            return key[i].len();
        }
        assert(kv.skip(i as int)[0].len() == 0);
        assert(kv.skip(i as int).skip(1) =~= kv.skip(i + 1));
        i = i + 1;
    }
    assert(kv.skip(kv.len() as int).len() == 0);
    1
}

/// The highest-indexed slot of `key` whose n-gram equals `win`, if any.
pub fn find_slot(key: &Vec<Vec<u8>>, win: &Vec<u8>) -> (r: Option<usize>)
    ensures
        match r {
            Some(j) => j < key@.len() && spec_last_match(key.deep_view(), win@) == Some(j as int),
            None => spec_last_match(key.deep_view(), win@) is None,
        },
{
    let ghost kv = key.deep_view();
    let mut best: Option<usize> = None;
    let mut j: usize = 0;
    while j < key.len()
        invariant
            kv == key.deep_view(),
            kv.len() == key@.len(),
            j <= key.len(),
            match best {
                Some(b) => b < j && spec_last_match(kv.subrange(0, j as int), win@) == Some(
                    b as int,
                ),
                None => spec_last_match(kv.subrange(0, j as int), win@) is None,
            },
        decreases key.len() - j,
    {
        let ghost pre = kv.subrange(0, j as int);
        assert(kv.subrange(0, j + 1).drop_last() =~= pre);
        assert(kv.subrange(0, j + 1).last() == kv[j as int]);
        if bytes_eq(&key[j], win) {
            assert(kv[j as int] == win@);
            best = Some(j);
        } else {
            assert(kv[j as int] != win@);
        }
        j = j + 1;
    }
    assert(kv.subrange(0, kv.len() as int) =~= kv);
    best
}

/// Appends `g` placeholder bytes.
fn push_placeholders(out: &mut Vec<u8>, g: usize)
    ensures
        final(out)@ == old(out)@ + Seq::new(g as nat, |k: int| PLACEHOLDER),
{
    let mut k: usize = 0;
    while k < g
        invariant
            k <= g,
            out@ == old(out)@ + Seq::new(k as nat, |k2: int| PLACEHOLDER),
        decreases g - k,
    {
        out.push(PLACEHOLDER);
        assert(out@ =~= old(out)@ + Seq::new((k + 1) as nat, |k2: int| PLACEHOLDER));
        k = k + 1;
    }
}

/// Reconstructs the candidate plaintext that `key` yields from
/// `ciphertext`.
///
/// The ciphertext is read in non-overlapping windows whose width is the
/// key's substitution width; each window matching a slot becomes that
/// slot's letter, each unmatched window a placeholder block of the full
/// window width, and a ragged suffix is dropped.  The result is a pure
/// function of the ciphertext and the key.
pub fn build_plaintext(ciphertext: &Vec<u8>, key: &Vec<Vec<u8>>) -> (r: Vec<u8>)
    requires
        key@.len() == KEY_SLOTS,
    ensures
        r@ == spec_build_plaintext(ciphertext@, key.deep_view()),
        r@.len() <= ciphertext@.len(),
{
    let ghost c = ciphertext@;
    let ghost kv = key.deep_view();
    let g = sub_width(key);
    let n = ciphertext.len();
    let mut out: Vec<u8> = Vec::new();
    if g <= n {
        let limit = n - g;
        let mut i: usize = 0;
        proof {
            assert(c.skip(0) =~= c);
            assert(Seq::<u8>::empty() + spec_plaintext_units(c, kv, g as int) =~= spec_plaintext_units(c, kv, g as int));
        }
        while i <= limit
            invariant
                c == ciphertext@,
                kv == key.deep_view(),
                key@.len() == KEY_SLOTS,
                g == spec_sub_width(kv),
                g >= 1,
                limit == n - g,
                g <= n,
                n == c.len(),
                i <= n,
                out@.len() <= i,
                spec_plaintext_units(c, kv, g as int) == out@ + spec_plaintext_units(
                    c.skip(i as int),
                    kv,
                    g as int,
                ),
            decreases n - i,
        {
            let win = copy_window(ciphertext, i, g);
            proof {
                assert(c.skip(i as int).subrange(0, g as int) =~= c.subrange(i as int, i + g));
                assert(c.skip(i as int).skip(g as int) =~= c.skip(i + g));
            }
            assert(win@ == c.skip(i as int).subrange(0, g as int));
            match find_slot(key, &win) {
                Some(j) => {
                    assert(j < KEY_SLOTS);
                    out.push((65 + j as u8));
                    assert(out@ =~= (out@.drop_last()) + seq![(65 + j) as u8]);
                },
                None => {
                    push_placeholders(&mut out, g);
                },
            }
            i = i + g;
        }
        assert(c.skip(i as int).len() < g);
        assert(spec_plaintext_units(c.skip(i as int), kv, g as int) == Seq::<u8>::empty());
        assert(out@ =~= out@ + Seq::<u8>::empty());
    } else {
        assert(c.len() < g);
        assert(spec_plaintext_units(c, kv, g as int) == Seq::<u8>::empty());
    }
    assert(out@ == spec_build_plaintext(c, kv));
    out
}

/// The encryption of a plaintext of letters under a key: each letter is
/// replaced by the n-gram of its slot.
pub open spec fn spec_encrypt(p: Seq<u8>, key: Seq<Seq<u8>>) -> Seq<u8>
    decreases p.len(),
{
    if p.len() == 0 {
        Seq::empty()
    } else {
        key[p[0] - 65] + spec_encrypt(p.skip(1), key)
    }
}

/// Reconstructor round trip: a key of 26 pairwise-distinct n-grams of
/// one common width inverts its own encryption, so reconstructing the
/// encryption of any plaintext of letters `A`..`Z` recovers that
/// plaintext exactly.
pub proof fn lemma_round_trip(p: Seq<u8>, key: Seq<Seq<u8>>, g: int)
    requires
        key.len() == KEY_SLOTS,
        1 <= g,
        forall|i: int| 0 <= i < key.len() ==> (#[trigger] key[i]).len() == g,
        forall|i: int, j: int| 0 <= i < j < key.len() ==> key[i] != key[j],
        forall|j: int| 0 <= j < p.len() ==> 65 <= #[trigger] p[j] <= 90,
    ensures
        spec_build_plaintext(spec_encrypt(p, key), key) == p,
    decreases p.len(),
{
    assert(key[0].len() == g);
    assert(spec_sub_width(key) == g);
    let c = spec_encrypt(p, key);
    if p.len() == 0 {
        assert(c.len() == 0);
        assert(spec_plaintext_units(c, key, g) =~= p);
    } else {
        let idx = p[0] - 65;
        assert(0 <= idx < 26);
        let rest = spec_encrypt(p.skip(1), key);
        assert(c == key[idx] + rest);
        assert(c.len() == g + rest.len());
        assert(c.subrange(0, g) =~= key[idx]);
        assert forall|i: int| 0 <= i < key.len() && i != idx implies key[i] != key[idx] by {
            if i < idx {
                assert(key[i] != key[idx]);
            } else {
                assert(key[idx] != key[i]);
            }
        }
        lemma_last_match_unique(key, key[idx], idx);
        assert(c.skip(g) =~= rest);
        lemma_round_trip(p.skip(1), key, g);
        assert(spec_plaintext_units(c, key, g) == seq![(65 + idx) as u8] + spec_plaintext_units(
            rest,
            key,
            g,
        ));
        assert((65 + idx) as u8 == p[0]);
        assert(seq![p[0]] + p.skip(1) =~= p);
    }
}

/// Unmatched windows map to whole placeholder blocks: when the leading
/// window of the ciphertext matches no slot, the reconstruction starts
/// with one placeholder per character of that window, and the remainder
/// is exactly the reconstruction of the remaining ciphertext — never a
/// partial or shifted block.  Applied to each suffix in turn, this
/// covers every unmatched window.
pub proof fn lemma_unmatched_window(c: Seq<u8>, key: Seq<Seq<u8>>)
    requires
        c.len() >= spec_sub_width(key),
        spec_last_match(key, c.subrange(0, spec_sub_width(key))) is None,
    ensures
        spec_build_plaintext(c, key).subrange(0, spec_sub_width(key)) == Seq::new(
            spec_sub_width(key) as nat,
            |k: int| PLACEHOLDER,
        ),
        spec_build_plaintext(c, key).skip(spec_sub_width(key)) == spec_build_plaintext(
            c.skip(spec_sub_width(key)),
            key,
        ),
{
    let g = spec_sub_width(key);
    lemma_sub_width_pos(key);
    let piece = Seq::new(g as nat, |k: int| PLACEHOLDER);
    let rest = spec_plaintext_units(c.skip(g), key, g);
    assert(spec_plaintext_units(c, key, g) == piece + rest);
    assert((piece + rest).subrange(0, g) =~= piece);
    assert((piece + rest).skip(g) =~= rest);
}

} // verus!
