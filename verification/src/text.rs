//! Byte-string utilities shared by the model, the reconstructor and the
//! search: ASCII case normalization, window extraction, and lookups in a
//! list of n-grams.

use vstd::prelude::*;

verus! {

/// The placeholder glyph emitted for a ciphertext window the key does not cover.
pub const PLACEHOLDER: u8 = 95;

/// The corpus word separator; model windows never cross it.
pub const SPACE: u8 = 32;

/// ASCII uppercase of a single byte; bytes outside `a..=z` are unchanged.
pub open spec fn spec_upper_byte(b: u8) -> u8 {
    if 97 <= b && b <= 122 {
        (b - 32) as u8
    } else {
        b
    }
}

/// ASCII uppercase of a byte string.
pub open spec fn spec_upper(s: Seq<u8>) -> Seq<u8> {
    s.map_values(|b: u8| spec_upper_byte(b))
}

/// Uppercases ASCII letters; all other bytes pass through unchanged.
pub fn ascii_uppercase(s: &Vec<u8>) -> (r: Vec<u8>)
    ensures
        r@ == spec_upper(s@),
{
    let mut r: Vec<u8> = Vec::new();
    let mut i: usize = 0;
    while i < s.len()
        invariant
            i <= s.len(),
            r@ == spec_upper(s@.subrange(0, i as int)),
        decreases s.len() - i,
    {
        let b = s[i];
        if 97 <= b && b <= 122 {
            r.push(b - 32);
        } else {
            r.push(b);
        }
        assert(s@.subrange(0, i + 1) == s@.subrange(0, i as int).push(s@[i as int]));
        assert(r@ == spec_upper(s@.subrange(0, i + 1)));
        i = i + 1;
    }
    assert(s@.subrange(0, s@.len() as int) == s@);
    r
}

/// Copies a byte string.
pub fn copy_bytes(s: &Vec<u8>) -> (r: Vec<u8>)
    ensures
        r@ == s@,
{
    let mut r: Vec<u8> = Vec::new();
    let mut i: usize = 0;
    while i < s.len()
        invariant
            i <= s.len(),
            r@ == s@.subrange(0, i as int),
        decreases s.len() - i,
    {
        r.push(s[i]);
        assert(s@.subrange(0, i + 1) == s@.subrange(0, i as int).push(s@[i as int]));
        i = i + 1;
    }
    assert(s@.subrange(0, s@.len() as int) == s@);
    r
}

/// Copies the window of `s` that starts at `i` and has width `w`.
pub fn copy_window(s: &Vec<u8>, i: usize, w: usize) -> (r: Vec<u8>)
    requires
        i + w <= s@.len(),
    ensures
        r@ == s@.subrange(i as int, i + w),
{
    let mut r: Vec<u8> = Vec::new();
    let mut k: usize = 0;
    while k < w
        invariant
            k <= w,
            i + w <= s.len(),
            r@ == s@.subrange(i as int, i + k),
        decreases w - k,
    {
        r.push(s[i + k]);
        assert(s@.subrange(i as int, i + k + 1) == s@.subrange(i as int, i + k).push(
            s@[i + k],
        ));
        k = k + 1;
    }
    r
}

/// Whether two byte strings are equal.
pub fn bytes_eq(a: &Vec<u8>, b: &Vec<u8>) -> (r: bool)
    ensures
        r == (a@ == b@),
{
    if a.len() != b.len() {
        assert(a@.len() != b@.len());
        return false;
    }
    let mut i: usize = 0;
    while i < a.len()
        invariant
            i <= a.len(),
            a@.len() == b@.len(),
            forall|k: int| 0 <= k < i ==> a@[k] == b@[k],
        decreases a.len() - i,
    {
        if a[i] != b[i] {
            return false;
        }
        i = i + 1;
    }
    assert(a@ =~= b@);
    true
}

/// Whether the byte string `x` occurs in the list `ss`.
pub open spec fn contains_bytes(ss: Seq<Seq<u8>>, x: Seq<u8>) -> bool {
    exists|i: int| 0 <= i < ss.len() && ss[i] == x
}

/// Membership in a list extended by one entry.
pub proof fn lemma_contains_push(ss: Seq<Seq<u8>>, x: Seq<u8>, g: Seq<u8>)
    ensures
        contains_bytes(ss.push(x), g) <==> (contains_bytes(ss, g) || g == x),
{
    if contains_bytes(ss, g) {
        let i = choose|i: int| 0 <= i < ss.len() && ss[i] == g;
        assert(ss.push(x)[i] == g);
    }
    if g == x {
        assert(ss.push(x)[ss.len() as int] == g);
    }
    if contains_bytes(ss.push(x), g) {
        let i = choose|i: int| 0 <= i < ss.push(x).len() && ss.push(x)[i] == g;
        if i < ss.len() {
            assert(ss[i] == g);
        }
    }
}

/// An entry of the element-wise view of a list of byte vectors is the view
/// of that entry.
pub broadcast proof fn lemma_deep_view_index(v: &Vec<Vec<u8>>, k: int)
    requires
        0 <= k < v@.len(),
    ensures
        #[trigger] v.deep_view()[k] == v@[k]@,
{
    assert(v@[k].deep_view() =~= v@[k]@);
}

/// Finds the first entry of `v` equal to `w`, if any.
pub fn find_first(v: &Vec<Vec<u8>>, w: &Vec<u8>) -> (r: Option<usize>)
    ensures
        r is Some <==> contains_bytes(v.deep_view(), w@),
        r is Some ==> {
            let j = r->Some_0;
            &&& j < v@.len()
            &&& v@[j as int]@ == w@
            &&& forall|k: int| 0 <= k < j ==> v@[k]@ != w@
        },
{
    broadcast use lemma_deep_view_index;

    let mut i: usize = 0;
    while i < v.len()
        invariant
            i <= v.len(),
            forall|k: int| 0 <= k < i ==> v@[k]@ != w@,
        decreases v.len() - i,
    {
        if bytes_eq(&v[i], w) {
            assert(v.deep_view()[i as int] == w@);
            return Some(i);
        }
        i = i + 1;
    }
    assert(forall|k: int| 0 <= k < v.deep_view().len() ==> v.deep_view()[k] != w@);
    None
}

} // verus!
