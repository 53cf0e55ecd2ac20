//! Deterministic conversation identity: the id of a conversation is a pure
//! function of (room, participant set), independent of the order in which the
//! participants were named.  Participants are sorted into the lexicographic
//! order of their names, joined with `:` after the room, hashed with SHA-256,
//! and the first 16 digest bytes are hex-encoded into a 32-character id.

use vstd::prelude::*;
use vstd::relations::{sorted_by, total_ordering};
use vstd::seq_lib::lemma_sorted_unique;

use crate::bytes::append_bytes;
use crate::country::{lemma_rank_injective, Country};
use crate::digest::{hex_bytes, hex_encode, sha256, sha256_of};
use crate::bytes::SEP;

verus! {

/// Country order: by rank, which follows the lexicographic order of names.
pub open spec fn country_le() -> spec_fn(Country, Country) -> bool {
    |a: Country, b: Country| a.rank() <= b.rank()
}

/// The country order is total.
pub proof fn lemma_country_le_total()
    ensures
        total_ordering(country_le()),
{
    let le = country_le();
    assert forall|x: Country, y: Country| #[trigger] le(x, y) && #[trigger] le(y, x) implies x
        == y by {
        lemma_rank_injective(x, y);
    }
    assert(vstd::relations::reflexive(le));
    assert(vstd::relations::transitive(le));
    assert(vstd::relations::strongly_connected(le));
}

/// The participants joined with `:`, in the order given.
pub open spec fn join_names(ps: Seq<Country>) -> Seq<u8>
    decreases ps.len(),
{
    if ps.len() == 0 {
        seq![]
    } else if ps.len() == 1 {
        ps[0].name_spec()
    } else {
        join_names(ps.drop_last()) + seq![SEP] + ps.last().name_spec()
    }
}

/// The hashed text: `room ":" join(sorted participants, ":")`.
pub open spec fn id_input(room: Seq<u8>, ps: Seq<Country>) -> Seq<u8> {
    room + seq![SEP] + join_names(ps.sort_by(country_le()))
}

/// The conversation id for a room and participant list: 32 lowercase hex
/// characters of the truncated digest.
pub open spec fn conv_id_of(room: Seq<u8>, ps: Seq<Country>) -> Seq<u8> {
    hex_bytes(sha256_of(id_input(room, ps)).take(16))
}

/// The id depends on the participant multiset only, never on its order.
pub proof fn lemma_conv_id_order_independent(room: Seq<u8>, a: Seq<Country>, b: Seq<Country>)
    requires
        a.to_multiset() == b.to_multiset(),
    ensures
        conv_id_of(room, a) == conv_id_of(room, b),
{
    lemma_country_le_total();
    a.lemma_sort_by_ensures(country_le());
    b.lemma_sort_by_ensures(country_le());
    lemma_sorted_unique(a.sort_by(country_le()), b.sort_by(country_le()), country_le());
}

/// Sorts countries by rank (insertion sort); the result is the specification
/// sort of the input.
pub fn sort_countries(v: &Vec<Country>) -> (r: Vec<Country>)
    ensures
        r@ == v@.sort_by(country_le()),
        sorted_by(r@, country_le()),
        r@.to_multiset() == v@.to_multiset(),
{
    let ghost le = country_le();
    let mut out: Vec<Country> = Vec::new();
    let mut i: usize = 0;
    proof {
        broadcast use vstd::seq_lib::group_to_multiset_ensures;
        broadcast use vstd::multiset::group_multiset_axioms;

        lemma_country_le_total();
        assert(v@.subrange(0, 0) =~= Seq::<Country>::empty());
        assert(out@ =~= Seq::<Country>::empty());
    }
    while i < v.len()
        invariant
            i <= v@.len(),
            le == country_le(),
            total_ordering(le),
            sorted_by(out@, le),
            out@.to_multiset() == v@.subrange(0, i as int).to_multiset(),
        decreases v@.len() - i,
    {
        let x = v[i];
        let mut j: usize = 0;
        while j < out.len() && out[j].rank_value() <= x.rank_value()
            invariant
                j <= out@.len(),
                forall|k: int| 0 <= k < j ==> (#[trigger] out@[k]).rank() <= x.rank(),
            decreases out@.len() - j,
        {
            j = j + 1;
        }
        proof {
            assert forall|k: int| j <= k < out@.len() implies x.rank() < (
            #[trigger] out@[k]).rank() by {
                if j < k {
                    assert(le(out@[j as int], out@[k]));
                }
            }
        }
        let ghost prev = out@;
        out.insert(j, x);
        i = i + 1;
        proof {
            broadcast use vstd::seq_lib::group_to_multiset_ensures;
            broadcast use vstd::multiset::group_multiset_axioms;

            assert(out@ == prev.insert(j as int, x));
            assert forall|p: int, q: int| 0 <= p < q < out@.len() implies #[trigger] le(
                out@[p],
                out@[q],
            ) by {
                if q < j {
                    assert(le(prev[p], prev[q]));
                } else if p > j {
                    assert(le(prev[p - 1], prev[q - 1]));
                } else if p < j && q == j {
                    assert(out@[p] == prev[p]);
                } else if p == j {
                    assert(out@[q] == prev[q - 1]);
                } else {
                    assert(p < j && q > j);
                    assert(out@[p] == prev[p] && out@[q] == prev[q - 1]);
                    assert(le(prev[p], prev[q - 1]));
                }
            }
            assert(out@.remove(j as int) =~= prev);
            assert(out@.to_multiset().remove(x) =~= prev.to_multiset());
            assert(out@.to_multiset().contains(x)) by {
                assert(out@[j as int] == x);
                assert(out@.contains(x));
            }
            assert(out@.to_multiset() =~= prev.to_multiset().insert(x));
            assert(v@.subrange(0, i as int) =~= v@.subrange(0, i - 1).push(v@[i - 1]));
        }
    }
    proof {
        assert(v@.subrange(0, v@.len() as int) =~= v@);
        v@.lemma_sort_by_ensures(le);
        lemma_sorted_unique(out@, v@.sort_by(le), le);
    }
    out
}

/// Derives the conversation id for a room and participant list.
pub fn derive_id(room: &Vec<u8>, participants: &Vec<Country>) -> (r: Vec<u8>)
    ensures
        r@ == conv_id_of(room@, participants@),
{
    let sorted = sort_countries(participants);
    let mut input: Vec<u8> = Vec::new();
    append_bytes(&mut input, room);
    input.push(SEP);
    let mut k: usize = 0;
    while k < sorted.len()
        invariant
            k <= sorted@.len(),
            input@ == room@ + seq![SEP] + join_names(sorted@.subrange(0, k as int)),
        decreases sorted@.len() - k,
    {
        if k > 0 {
            input.push(SEP);
        }
        let name = sorted[k].name();
        append_bytes(&mut input, &name);
        k = k + 1;
        proof {
            let pre = sorted@.subrange(0, k - 1);
            let cur = sorted@.subrange(0, k as int);
            assert(cur.drop_last() =~= pre);
            assert(cur.last() == sorted@[k - 1]);
            if k == 1 {
                assert(join_names(cur) == sorted@[0].name_spec());
                assert(input@ =~= room@ + seq![SEP] + join_names(cur));
            } else {
                assert(join_names(cur) == join_names(pre) + seq![SEP] + sorted@[k
                    - 1].name_spec());
                assert(input@ =~= room@ + seq![SEP] + join_names(cur));
            }
        }
    }
    proof {
        assert(sorted@.subrange(0, sorted@.len() as int) =~= sorted@);
        assert(input@ == id_input(room@, participants@));
    }
    let dig = sha256(&input);
    let mut head: Vec<u8> = Vec::new();
    let mut t: usize = 0;
    while t < 16
        invariant
            t <= 16,
            dig@.len() == 32,
            head@ == dig@.subrange(0, t as int),
        decreases 16 - t,
    {
        head.push(dig[t]);
        t = t + 1;
        proof {
            assert(dig@.subrange(0, t - 1).push(dig@[t - 1]) =~= dig@.subrange(0, t as int));
        }
    }
    proof {
        assert(head@ =~= sha256_of(id_input(room@, participants@)).take(16));
    }
    hex_encode(&head)
}

} // verus!
