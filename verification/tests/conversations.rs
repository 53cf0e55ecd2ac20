use council::convo::derive_id;
use council::country::{country_from_bytes, valid_country, Country};
use council::error::ApiError;
use council::store::Store;
use council::token::Claims;
use sha2::Digest;

fn b(s: &str) -> Vec<u8> {
    s.as_bytes().to_vec()
}

fn claims(room: &str, c: Country) -> Claims {
    Claims { room: b(room), country: c }
}

#[test]
fn country_parsing() {
    for name in ["england", "france", "germany", "italy", "austria", "russia", "turkey"] {
        assert!(valid_country(&b(name)), "{} must be valid", name);
    }
    assert!(!valid_country(&b("narnia")));
    assert!(!valid_country(&b("")));
    assert!(!valid_country(&b("Austria")));
    assert_eq!(country_from_bytes(&b("russia")), Some(Country::Russia));
    assert_eq!(country_from_bytes(&b("prussia")), None);
}

#[test]
fn derive_id_is_order_independent_and_stable() {
    let ab = derive_id(&b("R1"), &vec![Country::Austria, Country::Germany]);
    let ba = derive_id(&b("R1"), &vec![Country::Germany, Country::Austria]);
    assert_eq!(ab, ba);
    assert_eq!(ab, derive_id(&b("R1"), &vec![Country::Austria, Country::Germany]));
    let other_room = derive_id(&b("R2"), &vec![Country::Austria, Country::Germany]);
    assert_ne!(ab, other_room);
}

#[test]
fn derive_id_is_truncated_sha256_hex() {
    let id = derive_id(&b("R1"), &vec![Country::Germany, Country::Austria]);
    let digest = sha2::Sha256::digest(b"R1:austria:germany");
    let expected = hex::encode(&digest[..16]).into_bytes();
    assert_eq!(id, expected);
    assert_eq!(id.len(), 32);
}

#[test]
fn claim_seat_success_then_conflict() {
    let mut store = Store::new();
    let secret = b("s");
    let first = store.claim_seat(&secret, &b("R1"), &b("austria"));
    assert!(first.is_ok());
    let second = store.claim_seat(&secret, &b("R1"), &b("austria"));
    assert_eq!(second, Err(ApiError::Conflict));
    assert_eq!(ApiError::Conflict.status(), 409);
    // other seats and rooms stay claimable
    assert!(store.claim_seat(&secret, &b("R1"), &b("france")).is_ok());
    assert!(store.claim_seat(&secret, &b("R2"), &b("austria")).is_ok());
}

#[test]
fn claim_seat_validation() {
    let mut store = Store::new();
    let secret = b("s");
    assert_eq!(store.claim_seat(&secret, &b("R1"), &b("narnia")), Err(ApiError::BadRequest));
    assert_eq!(store.claim_seat(&secret, &b(""), &b("austria")), Err(ApiError::BadRequest));
    let long_room = vec![b'r'; 65];
    assert_eq!(store.claim_seat(&secret, &long_room, &b("austria")), Err(ApiError::BadRequest));
    let just_fits = vec![b'r'; 64];
    assert!(store.claim_seat(&secret, &just_fits, &b("austria")).is_ok());
}

#[test]
fn create_conversation_is_idempotent() {
    let mut store = Store::new();
    let caller = claims("R1", Country::Austria);
    let id1 = store
        .create_conversation(&caller, &b("R1"), &vec![b("austria"), b("germany")])
        .expect("first create must succeed");
    let id2 = store
        .create_conversation(&caller, &b("R1"), &vec![b("germany"), b("austria")])
        .expect("repeated create must succeed");
    assert_eq!(id1, id2);
    let listed = store.list_conversations(&caller, &b("R1")).expect("list must succeed");
    assert_eq!(listed.len(), 1, "the room index must not gain a duplicate entry");
    assert_eq!(listed[0].conversation_id, id1);
    assert_eq!(listed[0].participants, vec![Country::Austria, Country::Germany]);
}

#[test]
fn participant_validation_codes() {
    let mut store = Store::new();
    let caller = claims("R1", Country::Austria);
    // too few
    assert_eq!(
        store.create_conversation(&caller, &b("R1"), &vec![b("austria")]),
        Err(ApiError::BadRequest)
    );
    // too many
    assert_eq!(
        store.create_conversation(
            &caller,
            &b("R1"),
            &vec![b("austria"), b("england"), b("france"), b("italy")]
        ),
        Err(ApiError::BadRequest)
    );
    // duplicate participant
    assert_eq!(
        store.create_conversation(&caller, &b("R1"), &vec![b("austria"), b("austria")]),
        Err(ApiError::BadRequest)
    );
    // invalid country
    assert_eq!(
        store.create_conversation(&caller, &b("R1"), &vec![b("austria"), b("narnia")]),
        Err(ApiError::BadRequest)
    );
    // caller not a participant
    assert_eq!(
        store.create_conversation(&caller, &b("R1"), &vec![b("england"), b("france")]),
        Err(ApiError::Forbidden)
    );
    // room mismatch against the token
    assert_eq!(
        store.create_conversation(&caller, &b("R2"), &vec![b("austria"), b("germany")]),
        Err(ApiError::Unauthorized)
    );
    assert_eq!(ApiError::BadRequest.status(), 400);
    assert_eq!(ApiError::Forbidden.status(), 403);
    assert_eq!(ApiError::Unauthorized.status(), 401);
}

#[test]
fn list_is_scoped_to_membership() {
    let mut store = Store::new();
    let austria = claims("R1", Country::Austria);
    let england = claims("R1", Country::England);
    let x = store
        .create_conversation(&austria, &b("R1"), &vec![b("austria"), b("germany")])
        .unwrap();
    let y = store
        .create_conversation(&england, &b("R1"), &vec![b("england"), b("austria"), b("france")])
        .unwrap();
    let for_austria = store.list_conversations(&austria, &b("R1")).unwrap();
    assert_eq!(for_austria.len(), 2);
    let for_england = store.list_conversations(&england, &b("R1")).unwrap();
    assert_eq!(for_england.len(), 1);
    assert_eq!(for_england[0].conversation_id, y);
    let germany = claims("R1", Country::Germany);
    let for_germany = store.list_conversations(&germany, &b("R1")).unwrap();
    assert_eq!(for_germany.len(), 1);
    assert_eq!(for_germany[0].conversation_id, x);
    assert!(matches!(
        store.list_conversations(&austria, &b("R2")),
        Err(ApiError::Unauthorized)
    ));
}

#[test]
fn listing_an_unused_room_is_empty() {
    let store = Store::new();
    let caller = claims("R9", Country::Italy);
    assert!(store.list_conversations(&caller, &b("R9")).unwrap().is_empty());
}
