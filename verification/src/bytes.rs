//! Small verified helpers on byte vectors: equality, constant-time equality,
//! search from the right, concatenation and slicing.

use vstd::prelude::*;

verus! {

/// The `:` separator of the design's composite texts: authenticated messages,
/// id-derivation inputs and storage keys.
pub const SEP: u8 = 58;

/// Plain byte-vector equality.
pub fn eq_bytes(a: &Vec<u8>, b: &Vec<u8>) -> (r: bool)
    ensures
        r == (a@ == b@),
{
    if a.len() != b.len() {
        return false;
    }
    let mut i: usize = 0;
    while i < a.len()
        invariant
            a@.len() == b@.len(),
            i <= a@.len(),
            forall|j: int| 0 <= j < i ==> a@[j] == b@[j],
        decreases a@.len() - i,
    {
        if a[i] != b[i] {
            return false;
        }
        i = i + 1;
    }
    proof {
        assert(a@ =~= b@);
    }
    true
}

/// Equality that does not return early on a mismatch: for two inputs of the
/// same length the number of operations is independent of where they differ,
/// which keeps digest comparison free of timing side channels.
pub fn ct_eq(a: &Vec<u8>, b: &Vec<u8>) -> (r: bool)
    ensures
        r == (a@ == b@),
{
    if a.len() != b.len() {
        return false;
    }
    let mut diff: u8 = 0;
    let mut i: usize = 0;
    while i < a.len()
        invariant
            a@.len() == b@.len(),
            i <= a@.len(),
            (diff == 0) <==> (forall|j: int| 0 <= j < i ==> a@[j] == b@[j]),
        decreases a@.len() - i,
    {
        let x = a[i];
        let y = b[i];
        proof {
            assert(((diff | (x ^ y)) == 0) <==> (diff == 0 && x == y)) by (bit_vector);
        }
        diff = diff | (x ^ y);
        i = i + 1;
    }
    if diff == 0 {
        proof {
            assert(a@ =~= b@);
        }
        true
    } else {
        false
    }
}

/// Index of the last occurrence of `x`, scanning from the right.
pub open spec fn rfind_spec(s: Seq<u8>, x: u8) -> Option<int>
    decreases s.len(),
{
    if s.len() == 0 {
        None
    } else if s.last() == x {
        Some(s.len() - 1)
    } else {
        rfind_spec(s.drop_last(), x)
    }
}

/// `rfind_spec` finds the last occurrence when one exists.
pub proof fn lemma_rfind_at(s: Seq<u8>, x: u8, k: int)
    requires
        0 <= k < s.len(),
        s[k] == x,
        forall|j: int| k < j < s.len() ==> s[j] != x,
    ensures
        rfind_spec(s, x) == Some(k),
    decreases s.len(),
{
    if k == s.len() - 1 {
    } else {
        assert(s.last() != x);
        assert(s.drop_last()[k] == x);
        lemma_rfind_at(s.drop_last(), x, k);
    }
}

/// `rfind_spec` returns `None` exactly when `x` does not occur.
pub proof fn lemma_rfind_none(s: Seq<u8>, x: u8)
    requires
        forall|j: int| 0 <= j < s.len() ==> s[j] != x,
    ensures
        rfind_spec(s, x) is None,
    decreases s.len(),
{
    if s.len() > 0 {
        lemma_rfind_none(s.drop_last(), x);
    }
}

/// A found index is a genuine last occurrence.
pub proof fn lemma_rfind_props(s: Seq<u8>, x: u8)
    ensures
        match rfind_spec(s, x) {
            Some(k) => 0 <= k < s.len() && s[k] == x && forall|j: int|
                k < j < s.len() ==> s[j] != x,
            None => forall|j: int| 0 <= j < s.len() ==> s[j] != x,
        },
    decreases s.len(),
{
    if s.len() > 0 && s.last() != x {
        lemma_rfind_props(s.drop_last(), x);
        assert(forall|j: int|
            0 <= j < s.len() - 1 ==> s[j] == #[trigger] s.drop_last()[j]);
        match rfind_spec(s.drop_last(), x) {
            Some(k) => {
                assert forall|j: int| k < j < s.len() implies s[j] != x by {
                    if j < s.len() - 1 {
                        assert(s.drop_last()[j] != x);
                    }
                }
            },
            None => {
                assert forall|j: int| 0 <= j < s.len() implies s[j] != x by {
                    if j < s.len() - 1 {
                        assert(s.drop_last()[j] != x);
                    }
                }
            },
        }
    }
}

/// Search a vector from the right for byte `x`.
pub fn rfind(s: &Vec<u8>, x: u8) -> (r: Option<usize>)
    ensures
        match r {
            Some(i) => rfind_spec(s@, x) == Some(i as int),
            None => rfind_spec(s@, x) is None,
        },
{
    let mut i: usize = s.len();
    while i > 0
        invariant
            i <= s@.len(),
            forall|j: int| i <= j < s@.len() ==> s@[j] != x,
        decreases i,
    {
        i = i - 1;
        if s[i] == x {
            proof {
                lemma_rfind_at(s@, x, i as int);
            }
            return Some(i);
        }
    }
    proof {
        lemma_rfind_none(s@, x);
    }
    None
}

/// Appends all of `src` to `dst`.
pub fn append_bytes(dst: &mut Vec<u8>, src: &Vec<u8>)
    ensures
        final(dst)@ == old(dst)@ + src@,
{
    let mut i: usize = 0;
    while i < src.len()
        invariant
            i <= src@.len(),
            dst@ == old(dst)@ + src@.subrange(0, i as int),
        decreases src@.len() - i,
    {
        dst.push(src[i]);
        i = i + 1;
        proof {
            assert(old(dst)@ + src@.subrange(0, i - 1) + seq![src@[i - 1]] =~= old(dst)@
                + src@.subrange(0, i as int));
        }
    }
    proof {
        assert(src@.subrange(0, src@.len() as int) =~= src@);
    }
}

/// Copies the slice `[from, to)` of `s` into a fresh vector.
pub fn subvec(s: &Vec<u8>, from: usize, to: usize) -> (r: Vec<u8>)
    requires
        from <= to <= s@.len(),
    ensures
        r@ == s@.subrange(from as int, to as int),
{
    let mut r: Vec<u8> = Vec::new();
    let mut i: usize = from;
    while i < to
        invariant
            from <= i <= to <= s@.len(),
            r@ == s@.subrange(from as int, i as int),
        decreases to - i,
    {
        r.push(s[i]);
        i = i + 1;
        proof {
            assert(s@.subrange(from as int, i - 1).push(s@[i - 1]) =~= s@.subrange(
                from as int,
                i as int,
            ));
        }
    }
    r
}

/// Copies a whole byte vector.
pub fn copy_bytes(s: &Vec<u8>) -> (r: Vec<u8>)
    ensures
        r@ == s@,
{
    let r = subvec(s, 0, s.len());
    proof {
        assert(s@.subrange(0, s@.len() as int) =~= s@);
    }
    r
}

/// Lexicographic (shortlex-compatible, byte-wise) order on byte strings: a
/// proper prefix comes first, otherwise the first differing byte decides.
pub open spec fn lex_le(a: Seq<u8>, b: Seq<u8>) -> bool
    decreases a.len(),
{
    if a.len() == 0 {
        true
    } else if b.len() == 0 {
        false
    } else if a.first() < b.first() {
        true
    } else if a.first() > b.first() {
        false
    } else {
        lex_le(a.drop_first(), b.drop_first())
    }
}

/// The order is total: one direction always holds.
pub proof fn lemma_lex_le_total(a: Seq<u8>, b: Seq<u8>)
    ensures
        lex_le(a, b) || lex_le(b, a),
    decreases a.len(),
{
    if a.len() > 0 && b.len() > 0 && a.first() == b.first() {
        lemma_lex_le_total(a.drop_first(), b.drop_first());
    }
}

/// The order is transitive.
pub proof fn lemma_lex_le_trans(a: Seq<u8>, b: Seq<u8>, c: Seq<u8>)
    requires
        lex_le(a, b),
        lex_le(b, c),
    ensures
        lex_le(a, c),
    decreases a.len(),
{
    if a.len() > 0 && b.len() > 0 && c.len() > 0 {
        if a.first() == b.first() && b.first() == c.first() {
            lemma_lex_le_trans(a.drop_first(), b.drop_first(), c.drop_first());
        }
    }
}

/// Equal prefixes do not decide the order.
pub proof fn lemma_lex_le_skip(a: Seq<u8>, b: Seq<u8>, i: int)
    requires
        0 <= i <= a.len(),
        i <= b.len(),
        forall|j: int| 0 <= j < i ==> a[j] == b[j],
    ensures
        lex_le(a, b) == lex_le(a.skip(i), b.skip(i)),
    decreases i,
{
    if i == 0 {
        assert(a.skip(0) =~= a);
        assert(b.skip(0) =~= b);
    } else {
        assert(a.first() == b.first());
        assert(a.drop_first() =~= a.skip(1));
        assert(b.drop_first() =~= b.skip(1));
        lemma_lex_le_skip(a.skip(1), b.skip(1), i - 1);
        assert(a.skip(1).skip(i - 1) =~= a.skip(i));
        assert(b.skip(1).skip(i - 1) =~= b.skip(i));
    }
}

/// Byte-wise lexicographic comparison.
pub fn lex_le_bytes(a: &Vec<u8>, b: &Vec<u8>) -> (r: bool)
    ensures
        r == lex_le(a@, b@),
{
    let mut i: usize = 0;
    let alen: usize = a.len();
    let blen: usize = b.len();
    while i < alen && i < blen
        invariant
            alen == a@.len(),
            blen == b@.len(),
            i <= alen,
            i <= blen,
            forall|j: int| 0 <= j < i ==> a@[j] == b@[j],
        decreases alen - i,
    {
        proof {
            lemma_lex_le_skip(a@, b@, i as int);
        }
        if a[i] < b[i] {
            proof {
                assert(a@.skip(i as int).first() < b@.skip(i as int).first());
            }
            return true;
        }
        if a[i] > b[i] {
            proof {
                assert(a@.skip(i as int).first() > b@.skip(i as int).first());
            }
            return false;
        }
        i = i + 1;
    }
    proof {
        lemma_lex_le_skip(a@, b@, i as int);
        if a@.len() <= b@.len() {
            assert(a@.skip(i as int).len() == 0);
        } else {
            assert(b@.skip(i as int).len() == 0);
            assert(a@.skip(i as int).len() > 0);
        }
    }
    alen <= blen
}

} // verus!
