use council::country::Country;
use council::token::{bearer_claims, make_token, verify_token};
use hmac::Mac;

fn b(s: &str) -> Vec<u8> {
    s.as_bytes().to_vec()
}

const COUNTRIES: [(Country, &str); 7] = [
    (Country::Austria, "austria"),
    (Country::England, "england"),
    (Country::France, "france"),
    (Country::Germany, "germany"),
    (Country::Italy, "italy"),
    (Country::Russia, "russia"),
    (Country::Turkey, "turkey"),
];

#[test]
fn issue_verify_round_trip_all_countries() {
    let secret = b("table-talk-secret");
    for (c, name) in COUNTRIES {
        let token = make_token(&secret, &b("R1"), c);
        let claims = verify_token(&secret, &token).expect("fresh token must verify");
        assert_eq!(claims.room, b("R1"));
        assert_eq!(claims.country, c);
        assert_eq!(claims.country.name(), b(name));
    }
}

#[test]
fn round_trip_tolerates_delimiter_in_room() {
    let secret = b("k");
    let token = make_token(&secret, &b("we|rd:room"), Country::Turkey);
    let claims = verify_token(&secret, &token).expect("token must verify");
    assert_eq!(claims.room, b("we|rd:room"));
    assert_eq!(claims.country, Country::Turkey);
}

#[test]
fn token_digest_matches_hmac_sha256_hex() {
    let secret = b("shared");
    let token = make_token(&secret, &b("R1"), Country::Austria);
    let mut mac = hmac::Hmac::<sha2::Sha256>::new_from_slice(b"shared").unwrap();
    mac.update(b"R1:austria");
    let digest = hex::encode(mac.finalize().into_bytes());
    let expected = format!("R1|austria|{}", digest).into_bytes();
    assert_eq!(token, expected);
}

#[test]
fn flipping_any_single_character_fails_verification() {
    let secret = b("shared");
    let token = make_token(&secret, &b("R1"), Country::Germany);
    assert!(verify_token(&secret, &token).is_some());
    for i in 0..token.len() {
        let mut tampered = token.clone();
        tampered[i] = if tampered[i] == b'x' { b'y' } else { b'x' };
        assert!(
            verify_token(&secret, &tampered).is_none(),
            "tampered byte {} still verified",
            i
        );
    }
}

#[test]
fn wrong_secret_fails_verification() {
    let token = make_token(&b("one"), &b("R1"), Country::Italy);
    assert!(verify_token(&b("two"), &token).is_none());
}

#[test]
fn garbage_tokens_fail_uniformly() {
    let secret = b("s");
    assert!(verify_token(&secret, &b("")).is_none());
    assert!(verify_token(&secret, &b("no delimiters here")).is_none());
    assert!(verify_token(&secret, &b("R1|austria")).is_none());
    assert!(verify_token(&secret, &b("R1|narnia|0011")).is_none());
}

#[test]
fn bearer_header_parsing() {
    let secret = b("s");
    let token = make_token(&secret, &b("R1"), Country::France);
    let mut header = b("Bearer ");
    header.extend_from_slice(&token);
    let claims = bearer_claims(&secret, &header).expect("bearer header must verify");
    assert_eq!(claims.room, b("R1"));
    assert_eq!(claims.country, Country::France);
    assert!(bearer_claims(&secret, &token).is_none());
    assert!(bearer_claims(&secret, &b("Basic abc")).is_none());
    assert!(bearer_claims(&secret, &b("Bear")).is_none());
}
