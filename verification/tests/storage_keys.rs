use council::keys::{msg_key_bytes, pad20_bytes};

fn b(s: &str) -> Vec<u8> {
    s.as_bytes().to_vec()
}

#[test]
fn pad20_is_zero_padded_decimal() {
    assert_eq!(pad20_bytes(0), b("00000000000000000000"));
    assert_eq!(pad20_bytes(7), b("00000000000000000007"));
    assert_eq!(pad20_bytes(1_700_000_000_000), b("00000001700000000000"));
    assert_eq!(pad20_bytes(u64::MAX), b("18446744073709551615"));
    for t in [0u64, 1, 9, 10, 99, 12345, u64::MAX] {
        assert_eq!(pad20_bytes(t), format!("{:020}", t).into_bytes());
    }
}

#[test]
fn message_keys_sort_chronologically() {
    let prefix = b("conv:abc123:msg:");
    let early = msg_key_bytes(&prefix, 999, &b("zzz"));
    let late = msg_key_bytes(&prefix, 1000, &b("aaa"));
    assert!(early < late, "lexicographic key order must follow timestamps");
    let tie_a = msg_key_bytes(&prefix, 1000, &b("aaa"));
    let tie_b = msg_key_bytes(&prefix, 1000, &b("bbb"));
    assert!(tie_a < tie_b, "ties must be decided by message id");
    assert_eq!(late, b("conv:abc123:msg:00000000000000001000:aaa"));
}
