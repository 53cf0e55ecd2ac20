use council::country::Country;
use council::error::ApiError;
use council::store::Store;
use council::token::Claims;

fn b(s: &str) -> Vec<u8> {
    s.as_bytes().to_vec()
}

fn claims(room: &str, c: Country) -> Claims {
    Claims { room: b(room), country: c }
}

fn store_with_conv() -> (Store, Vec<u8>) {
    let mut store = Store::new();
    let caller = claims("R1", Country::Austria);
    let id = store
        .create_conversation(&caller, &b("R1"), &vec![b("austria"), b("germany")])
        .expect("create must succeed");
    (store, id)
}

#[test]
fn content_length_bounds() {
    let (mut store, id) = store_with_conv();
    let caller = claims("R1", Country::Austria);
    assert!(matches!(
        store.append_message(&caller, &id, &Vec::new(), 1),
        Err(ApiError::BadRequest)
    ));
    assert!(matches!(
        store.append_message(&caller, &id, &vec![b'a'; 4097], 2),
        Err(ApiError::BadRequest)
    ));
    assert!(store.append_message(&caller, &id, &vec![b'a'; 1], 3).is_ok());
    assert!(store.append_message(&caller, &id, &vec![b'a'; 4096], 4).is_ok());
}

#[test]
fn append_to_unknown_conversation_is_not_found() {
    let (mut store, _id) = store_with_conv();
    let caller = claims("R1", Country::Austria);
    assert!(matches!(
        store.append_message(&caller, &b("feedfacefeedfacefeedfacefeedface"), &b("hi"), 1),
        Err(ApiError::NotFound)
    ));
    assert!(matches!(
        store.read_messages(&caller, &b("feedfacefeedfacefeedfacefeedface"), 0),
        Err(ApiError::NotFound)
    ));
    assert_eq!(ApiError::NotFound.status(), 404);
}

#[test]
fn non_participant_is_forbidden() {
    let (mut store, id) = store_with_conv();
    let england = claims("R1", Country::England);
    assert!(matches!(
        store.append_message(&england, &id, &b("hi"), 1),
        Err(ApiError::Forbidden)
    ));
    assert!(matches!(store.read_messages(&england, &id, 0), Err(ApiError::Forbidden)));
}

#[test]
fn room_mismatch_is_forbidden() {
    // a token for room R1 may not touch a conversation whose metadata says R2
    let mut store = Store::new();
    let r2_caller = claims("R2", Country::Austria);
    let id = store
        .create_conversation(&r2_caller, &b("R2"), &vec![b("austria"), b("germany")])
        .unwrap();
    let r1_caller = claims("R1", Country::Austria);
    assert!(matches!(
        store.append_message(&r1_caller, &id, &b("hi"), 1),
        Err(ApiError::Forbidden)
    ));
    assert!(matches!(store.read_messages(&r1_caller, &id, 0), Err(ApiError::Forbidden)));
}

#[test]
fn sequential_appends_read_back_in_order() {
    let (mut store, id) = store_with_conv();
    let austria = claims("R1", Country::Austria);
    let germany = claims("R1", Country::Germany);
    let timestamps: [u64; 5] = [10, 20, 30, 40, 50];
    let mut ids: Vec<Vec<u8>> = Vec::new();
    for (n, t) in timestamps.iter().enumerate() {
        let caller = if n % 2 == 0 { &austria } else { &germany };
        let body = format!("message {}", n).into_bytes();
        ids.push(store.append_message(caller, &id, &body, *t).unwrap());
    }
    let all = store.read_messages(&austria, &id, 0).unwrap();
    assert_eq!(all.len(), 5);
    for (n, m) in all.iter().enumerate() {
        assert_eq!(m.timestamp, timestamps[n]);
        assert_eq!(m.message_id, ids[n]);
        assert_eq!(m.content, format!("message {}", n).into_bytes());
        assert_eq!(m.conversation_id, id);
        assert_eq!(m.room, b("R1"));
    }
    for w in all.windows(2) {
        assert!(w[0].timestamp <= w[1].timestamp);
    }
    // the since filter mirrors the boundary-key comparison: everything whose
    // key lies strictly beyond `pad(since):` survives, so a message stamped
    // exactly `since` is still returned
    let tail = store.read_messages(&austria, &id, 30).unwrap();
    assert_eq!(tail.len(), 3);
    assert_eq!(tail[0].timestamp, 30);
    assert_eq!(tail[1].timestamp, 40);
    assert_eq!(tail[2].timestamp, 50);
    for m in &tail {
        assert!(m.timestamp >= 30);
    }
    let none = store.read_messages(&austria, &id, 50).unwrap();
    assert_eq!(none.len(), 1);
    assert_eq!(none[0].timestamp, 50);
}

#[test]
fn out_of_order_appends_are_read_in_key_order() {
    let (mut store, id) = store_with_conv();
    let austria = claims("R1", Country::Austria);
    store.append_message(&austria, &id, &b("late"), 300).unwrap();
    store.append_message(&austria, &id, &b("early"), 100).unwrap();
    store.append_message(&austria, &id, &b("middle"), 200).unwrap();
    let all = store.read_messages(&austria, &id, 0).unwrap();
    assert_eq!(all.len(), 3);
    assert_eq!(all[0].content, b("early"));
    assert_eq!(all[1].content, b("middle"));
    assert_eq!(all[2].content, b("late"));
}

#[test]
fn reads_are_capped_at_two_hundred() {
    let (mut store, id) = store_with_conv();
    let austria = claims("R1", Country::Austria);
    for t in 0..205u64 {
        store.append_message(&austria, &id, &b("x"), t + 1).unwrap();
    }
    let page = store.read_messages(&austria, &id, 0).unwrap();
    assert_eq!(page.len(), 200);
    assert_eq!(page[0].timestamp, 1);
    assert_eq!(page[199].timestamp, 200);
}

#[test]
fn message_ids_are_uuid_shaped() {
    let (mut store, id) = store_with_conv();
    let austria = claims("R1", Country::Austria);
    let m1 = store.append_message(&austria, &id, &b("a"), 7).unwrap();
    let m2 = store.append_message(&austria, &id, &b("b"), 7).unwrap();
    assert_eq!(m1.len(), 36);
    assert_eq!(m2.len(), 36);
    assert_ne!(m1, m2);
    let text = String::from_utf8(m1).unwrap();
    assert!(text.chars().all(|c| c == '-' || c.is_ascii_hexdigit()));
}

#[test]
fn since_beyond_all_timestamps_returns_nothing() {
    let (mut store, id) = store_with_conv();
    let austria = claims("R1", Country::Austria);
    store.append_message(&austria, &id, &b("only"), 50).unwrap();
    let after = store.read_messages(&austria, &id, 51).unwrap();
    assert!(after.is_empty());
}

#[test]
fn fresh_conversation_has_no_messages() {
    let (store, id) = store_with_conv();
    let austria = claims("R1", Country::Austria);
    assert!(store.read_messages(&austria, &id, 0).unwrap().is_empty());
}
