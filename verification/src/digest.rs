//! Cryptographic primitives, taken from outside crates behind trusted
//! wrappers.  The digests themselves are named, not restated: `hmac_sha256_of`
//! and `sha256_of` stand for whatever the crates compute, as functions of
//! their inputs alone.  Hex encoding is simple enough to state exactly.

use vstd::prelude::*;

verus! {

/// The HMAC-SHA256 tag of `msg` under `key`.
pub uninterp spec fn hmac_sha256_of(key: Seq<u8>, msg: Seq<u8>) -> Seq<u8>;

/// The SHA-256 digest of `data`.
pub uninterp spec fn sha256_of(data: Seq<u8>) -> Seq<u8>;

/// Relies on hmac::Hmac<sha2::Sha256>: the 32-byte tag is a function of key
/// and message alone; `new_from_slice` accepts a key of any length.
#[verifier::external_body]
pub(crate) fn hmac_sha256(key: &Vec<u8>, msg: &Vec<u8>) -> (r: Vec<u8>)
    ensures
        r@ == hmac_sha256_of(key@, msg@),
        r@.len() == 32,
{
    let mut mac = <hmac::Hmac<sha2::Sha256> as hmac::Mac>::new_from_slice(key.as_slice())
        .expect("HMAC accepts any key size");
    hmac::Mac::update(&mut mac, msg.as_slice());
    hmac::Mac::finalize(mac).into_bytes().to_vec()
}

/// Relies on sha2::Sha256: the 32-byte digest is a function of the input alone.
#[verifier::external_body]
pub(crate) fn sha256(data: &Vec<u8>) -> (r: Vec<u8>)
    ensures
        r@ == sha256_of(data@),
        r@.len() == 32,
{
    <sha2::Sha256 as sha2::Digest>::digest(data.as_slice()).to_vec()
}

/// The lowercase hex digit for a nibble.
pub open spec fn hex_digit(n: u8) -> u8 {
    if n < 10 {
        (48 + n) as u8
    } else {
        (87 + n) as u8
    }
}

/// Lowercase hex encoding: two digits per byte, high nibble first.
pub open spec fn hex_bytes(data: Seq<u8>) -> Seq<u8>
    decreases data.len(),
{
    if data.len() == 0 {
        seq![]
    } else {
        seq![hex_digit(data.first() / 16), hex_digit(data.first() % 16)] + hex_bytes(
            data.drop_first(),
        )
    }
}

/// Whether `b` is a lowercase hex digit byte.
pub open spec fn is_hex_byte(b: u8) -> bool {
    (48 <= b <= 57) || (97 <= b <= 102)
}

/// A hex encoding is twice as long as its input and contains hex digit bytes
/// only; in particular it contains no delimiter byte.
pub proof fn lemma_hex_bytes_props(data: Seq<u8>)
    ensures
        hex_bytes(data).len() == 2 * data.len(),
        forall|j: int| 0 <= j < hex_bytes(data).len() ==> is_hex_byte(#[trigger] hex_bytes(data)[j]),
    decreases data.len(),
{
    if data.len() > 0 {
        lemma_hex_bytes_props(data.drop_first());
        assert(is_hex_byte(hex_digit(data.first() / 16)));
        assert(is_hex_byte(hex_digit(data.first() % 16)));
    }
}

/// Relies on hex::encode: lowercase hex, each input byte becomes exactly two
/// digits, high nibble first.
#[verifier::external_body]
pub(crate) fn hex_encode(data: &Vec<u8>) -> (r: Vec<u8>)
    ensures
        r@ == hex_bytes(data@),
{
    hex::encode(data.as_slice()).into_bytes()
}

} // verus!
