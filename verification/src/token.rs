//! Token codec: stateless, tamper-evident bearer tokens binding a caller to
//! one (room, country) seat.
//!
//! A token is `room | country | hex(HMAC-SHA256(secret, room ":" country))`,
//! the three fields joined by `|`.  Verification splits from the right twice,
//! so a room identifier may itself contain the delimiter, and compares the
//! digest without returning early on a mismatch.

use vstd::prelude::*;

use crate::bytes::{append_bytes, ct_eq, lemma_rfind_at, lemma_rfind_props, rfind, rfind_spec,
    subvec, SEP};
use crate::country::{country_from_bytes, country_of, lemma_country_of_name, Country};
use crate::digest::{hex_bytes, hex_encode, hmac_sha256, hmac_sha256_of, is_hex_byte,
    lemma_hex_bytes_props};

verus! {

/// Field delimiter `|` between room, country and digest.
pub const DELIM: u8 = 124;

/// The (room, country) pair a verified token asserts.
pub struct Claims {
    pub room: Vec<u8>,
    pub country: Country,
}

/// The authenticated message: `room ":" country`.
pub open spec fn mac_input_spec(room: Seq<u8>, c: Country) -> Seq<u8> {
    room + seq![SEP] + c.name_spec()
}

/// The hex-encoded keyed digest of a seat.
pub open spec fn digest_spec(secret: Seq<u8>, room: Seq<u8>, c: Country) -> Seq<u8> {
    hex_bytes(hmac_sha256_of(secret, mac_input_spec(room, c)))
}

/// The full token for a seat.
pub open spec fn token_spec(secret: Seq<u8>, room: Seq<u8>, c: Country) -> Seq<u8> {
    room + seq![DELIM] + c.name_spec() + seq![DELIM] + digest_spec(secret, room, c)
}

/// A room identifier must be non-empty and at most 64 bytes.
pub open spec fn room_ok(room: Seq<u8>) -> bool {
    1 <= room.len() <= 64
}

/// Hex digest of the seat's authenticated message.
pub fn compute_hmac_hex(secret: &Vec<u8>, room: &Vec<u8>, country: Country) -> (r: Vec<u8>)
    ensures
        r@ == digest_spec(secret@, room@, country),
{
    let mut input: Vec<u8> = Vec::new();
    append_bytes(&mut input, room);
    input.push(SEP);
    let name = country.name();
    append_bytes(&mut input, &name);
    proof {
        assert(input@ =~= mac_input_spec(room@, country));
    }
    let tag = hmac_sha256(secret, &input);
    hex_encode(&tag)
}

/// Issues the bearer token for a seat.
pub fn make_token(secret: &Vec<u8>, room: &Vec<u8>, country: Country) -> (r: Vec<u8>)
    requires
        room_ok(room@),
    ensures
        r@ == token_spec(secret@, room@, country),
{
    let mut t: Vec<u8> = Vec::new();
    append_bytes(&mut t, room);
    t.push(DELIM);
    let name = country.name();
    append_bytes(&mut t, &name);
    t.push(DELIM);
    let d = compute_hmac_hex(secret, room, country);
    append_bytes(&mut t, &d);
    proof {
        assert(t@ =~= token_spec(secret@, room@, country));
    }
    t
}

/// Splits a token into (room, country name, digest) at its two rightmost
/// delimiters.
pub open spec fn parse_token_spec(token: Seq<u8>) -> Option<(Seq<u8>, Seq<u8>, Seq<u8>)> {
    match rfind_spec(token, DELIM) {
        None => None,
        Some(last) => {
            let rest = token.subrange(0, last);
            let dig = token.subrange(last as int + 1, token.len() as int);
            match rfind_spec(rest, DELIM) {
                None => None,
                Some(mid) => Some(
                    (rest.subrange(0, mid), rest.subrange(mid + 1, rest.len() as int), dig),
                ),
            }
        },
    }
}

/// What verification recovers: the claims, or nothing, uniformly, on a parse
/// failure, an unknown country, or a digest mismatch.
pub open spec fn verify_spec(secret: Seq<u8>, token: Seq<u8>) -> Option<(Seq<u8>, Country)> {
    match parse_token_spec(token) {
        None => None,
        Some((room, cname, dig)) => match country_of(cname) {
            None => None,
            Some(c) => if dig == digest_spec(secret, room, c) {
                Some((room, c))
            } else {
                None
            },
        },
    }
}

/// Verifies a token against the shared secret, recovering its claims.
pub fn verify_token(secret: &Vec<u8>, token: &Vec<u8>) -> (r: Option<Claims>)
    ensures
        match r {
            Some(cl) => verify_spec(secret@, token@) == Some((cl.room@, cl.country)),
            None => verify_spec(secret@, token@) is None,
        },
{
    let last = match rfind(token, DELIM) {
        Some(i) => i,
        None => {
            return None;
        },
    };
    proof {
        lemma_rfind_props(token@, DELIM);
        assert((last as int) < token@.len());
    }
    let tlen: usize = token.len();
    proof {
        assert(last < tlen);
    }
    let rest = subvec(token, 0, last);
    let dig = subvec(token, last + 1, tlen);
    let mid = match rfind(&rest, DELIM) {
        Some(i) => i,
        None => {
            return None;
        },
    };
    proof {
        lemma_rfind_props(rest@, DELIM);
        assert((mid as int) < rest@.len());
    }
    let rlen: usize = rest.len();
    proof {
        assert(mid < rlen);
    }
    let room = subvec(&rest, 0, mid);
    let cname = subvec(&rest, mid + 1, rlen);
    let country = match country_from_bytes(&cname) {
        Some(c) => c,
        None => {
            return None;
        },
    };
    let expected = compute_hmac_hex(secret, &room, country);
    if ct_eq(&dig, &expected) {
        Some(Claims { room, country })
    } else {
        None
    }
}

/// The bytes of the `Bearer ` scheme prefix of an authorization header.
pub open spec fn bearer_prefix() -> Seq<u8> {
    seq![66u8, 101u8, 97u8, 114u8, 101u8, 114u8, 32u8]
}

/// Extracts and verifies the claims of an `Authorization: Bearer <token>`
/// header value; fails uniformly on a missing scheme or a bad token.
pub fn bearer_claims(secret: &Vec<u8>, header: &Vec<u8>) -> (r: Option<Claims>)
    ensures
        match r {
            Some(cl) => header@.len() >= 7 && header@.subrange(0, 7) == bearer_prefix()
                && verify_spec(secret@, header@.skip(7)) == Some((cl.room@, cl.country)),
            None => header@.len() < 7 || header@.subrange(0, 7) != bearer_prefix()
                || verify_spec(secret@, header@.skip(7)) is None,
        },
{
    if header.len() < 7 {
        return None;
    }
    let scheme = subvec(header, 0, 7);
    let mut expected: Vec<u8> = Vec::new();
    expected.push(66);
    expected.push(101);
    expected.push(97);
    expected.push(114);
    expected.push(101);
    expected.push(114);
    expected.push(32);
    proof {
        assert(expected@ =~= bearer_prefix());
    }
    if !crate::bytes::eq_bytes(&scheme, &expected) {
        return None;
    }
    let token = subvec(header, 7, header.len());
    proof {
        assert(header@.subrange(7, header@.len() as int) =~= header@.skip(7));
    }
    verify_token(secret, &token)
}

/// No country name contains the field delimiter.
pub proof fn lemma_name_no_delim(c: Country)
    ensures
        forall|j: int| 0 <= j < c.name_spec().len() ==> c.name_spec()[j] != DELIM,
{
}

/// Verifying a freshly issued token recovers exactly the seat it was issued
/// for: the round trip loses nothing, whatever the room identifier contains.
pub proof fn lemma_issue_then_verify(secret: Seq<u8>, room: Seq<u8>, c: Country)
    ensures
        verify_spec(secret, token_spec(secret, room, c)) == Some((room, c)),
{
    let name = c.name_spec();
    let dig = digest_spec(secret, room, c);
    let token = token_spec(secret, room, c);
    lemma_hex_bytes_props(hmac_sha256_of(secret, mac_input_spec(room, c)));
    assert forall|j: int| 0 <= j < dig.len() implies dig[j] != DELIM by {
        assert(is_hex_byte(dig[j]));
    }
    lemma_name_no_delim(c);
    let last = room.len() + 1 + name.len();
    assert(token[last as int] == DELIM);
    assert forall|j: int| last < j < token.len() implies token[j] != DELIM by {
        assert(token[j] == dig[j - (last + 1)]);
    }
    lemma_rfind_at(token, DELIM, last as int);
    let rest = token.subrange(0, last as int);
    assert(rest =~= room + seq![DELIM] + name);
    assert(token.subrange(last as int + 1, token.len() as int) =~= dig);
    assert(rest[room.len() as int] == DELIM);
    assert forall|j: int| room.len() < j < rest.len() implies rest[j] != DELIM by {
        assert(rest[j] == name[j - (room.len() + 1)]);
    }
    lemma_rfind_at(rest, DELIM, room.len() as int);
    assert(rest.subrange(0, room.len() as int) =~= room);
    assert(rest.subrange(room.len() as int + 1, rest.len() as int) =~= name);
    lemma_country_of_name(c);
}

} // verus!
