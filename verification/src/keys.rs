//! The storage-key layout of the message log.
//!
//! A message is stored under `prefix ++ pad20(timestamp) ++ ":" ++ message_id`
//! (the prefix names the conversation).  Zero-padding the decimal timestamp to
//! a fixed 20 digits makes the lexicographic order of the keys of one
//! conversation coincide with the (timestamp, message id) order — the
//! guarantee the message log rests on, proved here as `lemma_key_order`.

use vstd::prelude::*;

use crate::bytes::{lemma_lex_le_skip, lex_le};
use crate::bytes::SEP;

verus! {

/// Ten to the `n`.
pub open spec fn pow10(n: nat) -> nat
    decreases n,
{
    if n == 0 {
        1nat
    } else {
        10 * pow10((n - 1) as nat)
    }
}

/// The last `n` decimal digits of `t`, most significant first, as ASCII.
pub open spec fn pad_digits(t: nat, n: nat) -> Seq<u8>
    decreases n,
{
    if n == 0 {
        seq![]
    } else {
        pad_digits(t / 10, (n - 1) as nat).push((48 + t % 10) as u8)
    }
}

/// A timestamp zero-padded to 20 decimal digits, enough for any `u64`.
pub open spec fn pad20(t: u64) -> Seq<u8> {
    pad_digits(t as nat, 20)
}

/// The storage key of a message under a conversation's key prefix.
pub open spec fn msg_key(prefix: Seq<u8>, t: u64, message_id: Seq<u8>) -> Seq<u8> {
    prefix + pad20(t) + seq![SEP] + message_id
}

pub proof fn lemma_pad_digits_len(t: nat, n: nat)
    ensures
        pad_digits(t, n).len() == n,
    decreases n,
{
    if n > 0 {
        lemma_pad_digits_len(t / 10, (n - 1) as nat);
    }
}

/// Appending one element each keeps the order of equal-length sequences, with
/// the new elements deciding ties.
proof fn lemma_lex_le_push(a: Seq<u8>, b: Seq<u8>, x: u8, y: u8)
    requires
        a.len() == b.len(),
        lex_le(a, b),
        a == b ==> x <= y,
    ensures
        lex_le(a.push(x), b.push(y)),
    decreases a.len(),
{
    if a.len() == 0 {
        assert(a =~= b);
        assert(x <= y);
        assert(a.push(x).len() == 1 && b.push(y).len() == 1);
        assert(a.push(x).first() == x && b.push(y).first() == y);
        if x == y {
            assert(a.push(x).drop_first() =~= Seq::<u8>::empty());
            assert(b.push(y).drop_first() =~= Seq::<u8>::empty());
            assert(lex_le(a.push(x).drop_first(), b.push(y).drop_first()));
            assert(lex_le(a.push(x), b.push(y)));
        } else {
            assert(x < y);
            assert(lex_le(a.push(x), b.push(y)));
        }
    } else {
        assert(a.push(x).first() == a.first() && b.push(y).first() == b.first());
        assert(a.push(x).drop_first() =~= a.drop_first().push(x));
        assert(b.push(y).drop_first() =~= b.drop_first().push(y));
        if a.first() == b.first() {
            if a.drop_first() == b.drop_first() {
                assert forall|i: int| 0 <= i < a.len() implies a[i] == b[i] by {
                    if i > 0 {
                        assert(a[i] == a.drop_first()[i - 1]);
                        assert(b[i] == b.drop_first()[i - 1]);
                    }
                }
                assert(a =~= b);
            }
            lemma_lex_le_push(a.drop_first(), b.drop_first(), x, y);
            assert(lex_le(a.push(x).drop_first(), b.push(y).drop_first()));
            assert(lex_le(a.push(x), b.push(y)));
        } else {
            assert(a.first() < b.first());
            assert(lex_le(a.push(x), b.push(y)));
        }
    }
}

/// Padding preserves numeric order (for values the digits can hold).
pub proof fn lemma_pad_digits_le(t1: nat, t2: nat, n: nat)
    requires
        t1 <= t2,
        t2 < pow10(n),
    ensures
        lex_le(pad_digits(t1, n), pad_digits(t2, n)),
    decreases n,
{
    if n > 0 {
        assert(pow10(n) == 10 * pow10((n - 1) as nat));
        lemma_pad_digits_le(t1 / 10, t2 / 10, (n - 1) as nat);
        lemma_pad_digits_len(t1 / 10, (n - 1) as nat);
        lemma_pad_digits_len(t2 / 10, (n - 1) as nat);
        if pad_digits(t1 / 10, (n - 1) as nat) == pad_digits(t2 / 10, (n - 1) as nat) {
            lemma_pad_digits_value(t1 / 10, t2 / 10, (n - 1) as nat);
            assert(t1 / 10 == t2 / 10);
            assert(t1 % 10 <= t2 % 10);
        }
        lemma_lex_le_push(
            pad_digits(t1 / 10, (n - 1) as nat),
            pad_digits(t2 / 10, (n - 1) as nat),
            (48 + t1 % 10) as u8,
            (48 + t2 % 10) as u8,
        );
    }
}

/// Distinct values under `pow10(n)` pad to distinct digit strings.
pub proof fn lemma_pad_digits_value(t1: nat, t2: nat, n: nat)
    requires
        pad_digits(t1, n) == pad_digits(t2, n),
        t1 < pow10(n),
        t2 < pow10(n),
    ensures
        t1 == t2,
    decreases n,
{
    if n == 0 {
        assert(t1 == 0 && t2 == 0);
    } else {
        let p1 = pad_digits(t1 / 10, (n - 1) as nat);
        let p2 = pad_digits(t2 / 10, (n - 1) as nat);
        lemma_pad_digits_len(t1 / 10, (n - 1) as nat);
        lemma_pad_digits_len(t2 / 10, (n - 1) as nat);
        assert(p1.push((48 + t1 % 10) as u8).last() == (48 + t1 % 10) as u8);
        assert(t1 % 10 == t2 % 10);
        assert(p1.push((48 + t1 % 10) as u8).drop_last() =~= p1);
        assert(p2.push((48 + t2 % 10) as u8).drop_last() =~= p2);
        assert(p1 == p2);
        assert(t1 / 10 < pow10((n - 1) as nat)) by {
            assert(pow10(n) == 10 * pow10((n - 1) as nat));
        }
        assert(t2 / 10 < pow10((n - 1) as nat)) by {
            assert(pow10(n) == 10 * pow10((n - 1) as nat));
        }
        lemma_pad_digits_value(t1 / 10, t2 / 10, (n - 1) as nat);
    }
}

/// A strictly smaller equal-length head decides the order whatever follows.
proof fn lemma_lex_concat_lt(a: Seq<u8>, b: Seq<u8>, s: Seq<u8>, u: Seq<u8>)
    requires
        a.len() == b.len(),
        lex_le(a, b),
        a != b,
    ensures
        lex_le(a + s, b + u),
        !lex_le(b + u, a + s),
    decreases a.len(),
{
    assert(a.len() > 0) by {
        if a.len() == 0 {
            assert(a =~= b);
        }
    }
    assert((a + s).first() == a.first() && (b + u).first() == b.first());
    assert((a + s).drop_first() =~= a.drop_first() + s);
    assert((b + u).drop_first() =~= b.drop_first() + u);
    if a.first() == b.first() {
        assert(a.drop_first() != b.drop_first()) by {
            if a.drop_first() == b.drop_first() {
                assert forall|i: int| 0 <= i < a.len() implies a[i] == b[i] by {
                    if i > 0 {
                        assert(a[i] == a.drop_first()[i - 1]);
                        assert(b[i] == b.drop_first()[i - 1]);
                    }
                }
                assert(a =~= b);
            }
        }
        lemma_lex_concat_lt(a.drop_first(), b.drop_first(), s, u);
    }
}

/// `pow10(20)` exceeds every `u64` timestamp.
pub proof fn lemma_u64_below_pow10_20(t: u64)
    ensures
        (t as nat) < pow10(20),
{
    reveal_with_fuel(pow10, 21);
    assert(pow10(20) == 100000000000000000000);
}

/// The zero-padded key layout realises the message order: for two keys of one
/// conversation, lexicographic key order is exactly timestamp order with ties
/// decided by the message id.
pub proof fn lemma_key_order(prefix: Seq<u8>, t1: u64, m1: Seq<u8>, t2: u64, m2: Seq<u8>)
    ensures
        lex_le(msg_key(prefix, t1, m1), msg_key(prefix, t2, m2)) == (t1 < t2 || (t1 == t2
            && lex_le(m1, m2))),
{
    let k1 = msg_key(prefix, t1, m1);
    let k2 = msg_key(prefix, t2, m2);
    let a1 = pad20(t1) + seq![SEP] + m1;
    let a2 = pad20(t2) + seq![SEP] + m2;
    lemma_pad_digits_len(t1 as nat, 20);
    lemma_pad_digits_len(t2 as nat, 20);
    assert(k1 =~= prefix + a1);
    assert(k2 =~= prefix + a2);
    lemma_lex_le_skip(prefix + a1, prefix + a2, prefix.len() as int);
    assert((prefix + a1).skip(prefix.len() as int) =~= a1);
    assert((prefix + a2).skip(prefix.len() as int) =~= a2);
    if t1 == t2 {
        assert(lex_le(a1, a2) == lex_le(m1, m2)) by {
            lemma_lex_le_skip(a1, a2, 21);
            assert(a1.skip(21) =~= m1);
            assert(a2.skip(21) =~= m2);
        }
    } else {
        lemma_u64_below_pow10_20(t1);
        lemma_u64_below_pow10_20(t2);
        let lo = if t1 < t2 { t1 } else { t2 };
        let hi = if t1 < t2 { t2 } else { t1 };
        lemma_pad_digits_le(lo as nat, hi as nat, 20);
        assert(pad20(lo) != pad20(hi)) by {
            if pad20(lo) == pad20(hi) {
                lemma_pad_digits_value(lo as nat, hi as nat, 20);
            }
        }
        if t1 < t2 {
            lemma_lex_concat_lt(pad20(t1), pad20(t2), seq![SEP] + m1, seq![SEP] + m2);
            assert(pad20(t1) + (seq![SEP] + m1) =~= a1);
            assert(pad20(t2) + (seq![SEP] + m2) =~= a2);
        } else {
            lemma_lex_concat_lt(pad20(t2), pad20(t1), seq![SEP] + m2, seq![SEP] + m1);
            assert(pad20(t2) + (seq![SEP] + m2) =~= a2);
            assert(pad20(t1) + (seq![SEP] + m1) =~= a1);
        }
    }
}

/// The zero-padded decimal form of a timestamp, 20 ASCII digits.
pub fn pad20_bytes(t: u64) -> (r: Vec<u8>)
    ensures
        r@ == pad20(t),
{
    let mut digits: Vec<u8> = Vec::new();
    let mut rest: u64 = t;
    let mut n: usize = 0;
    while n < 20
        invariant
            n <= 20,
            digits@.len() == n,
            pad_digits(t as nat, 20) == pad_digits(rest as nat, (20 - n) as nat) + digits@,
        decreases 20 - n,
    {
        let ghost pre = digits@;
        let d: u8 = (rest % 10) as u8;
        digits.insert(0, 48 + d);
        rest = rest / 10;
        n = n + 1;
        proof {
            assert(digits@ =~= seq![(48 + d) as u8] + pre);
            assert(pad_digits((rest * 10 + d) as nat, (21 - n) as nat) == pad_digits(
                rest as nat,
                (20 - n) as nat,
            ).push((48 + d) as u8));
            assert(pad_digits(rest as nat, (20 - n) as nat).push((48 + d) as u8) + pre
                =~= pad_digits(rest as nat, (20 - n) as nat) + digits@);
        }
    }
    proof {
        assert(pad_digits(rest as nat, 0) =~= Seq::<u8>::empty());
        assert(Seq::<u8>::empty() + digits@ =~= digits@);
    }
    digits
}

/// The storage key of a message under a conversation's key prefix.
pub fn msg_key_bytes(prefix: &Vec<u8>, t: u64, message_id: &Vec<u8>) -> (r: Vec<u8>)
    ensures
        r@ == msg_key(prefix@, t, message_id@),
{
    let mut key = crate::bytes::copy_bytes(prefix);
    let padded = pad20_bytes(t);
    crate::bytes::append_bytes(&mut key, &padded);
    key.push(SEP);
    crate::bytes::append_bytes(&mut key, message_id);
    proof {
        assert(key@ =~= msg_key(prefix@, t, message_id@));
    }
    key
}

} // verus!
