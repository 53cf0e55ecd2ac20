use council::country::Country;
use council::store::Store;
use council::token::verify_token;

fn b(s: &str) -> Vec<u8> {
    s.as_bytes().to_vec()
}

#[test]
fn end_to_end_room_r1() {
    let mut store = Store::new();
    let secret = b("table-talk-secret");

    // austria claims a seat and gets token A
    let token_a = store.claim_seat(&secret, &b("R1"), &b("austria")).expect("austria claims");
    let claims_a = verify_token(&secret, &token_a).expect("token A verifies");
    assert_eq!(claims_a.room, b("R1"));
    assert_eq!(claims_a.country, Country::Austria);

    // austria creates a conversation with [austria, germany], id X
    let x = store
        .create_conversation(&claims_a, &b("R1"), &vec![b("austria"), b("germany")])
        .expect("create succeeds");

    // germany claims a seat and gets token G
    let token_g = store.claim_seat(&secret, &b("R1"), &b("germany")).expect("germany claims");
    let claims_g = verify_token(&secret, &token_g).expect("token G verifies");
    assert_eq!(claims_g.country, Country::Germany);

    // germany posts "Hello" to X
    let t: u64 = 1_700_000_000_000;
    let m = store.append_message(&claims_g, &x, &b("Hello"), t).expect("append succeeds");

    // austria reads X from the beginning and sees exactly germany's record
    let messages = store.read_messages(&claims_a, &x, 0).expect("read succeeds");
    assert_eq!(messages.len(), 1);
    let record = &messages[0];
    assert_eq!(record.message_id, m);
    assert_eq!(record.sender, Country::Germany);
    assert_eq!(record.content, b("Hello"));
    assert_eq!(record.conversation_id, x);
    assert_eq!(record.room, b("R1"));
    assert_eq!(record.timestamp, t);
}
