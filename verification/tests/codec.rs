use giftcard_bot::codec::{decode_store, encode_store};
use giftcard_bot::ledger::RedemptionLedger;

#[test]
fn empty_ledger_encodes_to_empty_list() {
    let bytes = encode_store(&vec![]);
    assert_eq!(bytes, b"{\"redeemed_users\":[]}".to_vec());
}

#[test]
fn encoding_lists_the_ids_in_order() {
    let bytes = encode_store(&vec![-5i64, 0, 123]);
    assert_eq!(bytes, b"{\"redeemed_users\":[-5,0,123]}".to_vec());
}

#[test]
fn decode_reads_back_what_encode_wrote() {
    for ids in [
        vec![],
        vec![100i64],
        vec![-9223372036854775808i64, -1, 0, 1, 9223372036854775807],
        vec![7i64, 7, 3],
    ] {
        let bytes = encode_store(&ids);
        assert_eq!(decode_store(&bytes), Some(ids));
    }
}

#[test]
fn a_whole_ledger_survives_a_restart() {
    // Durability round trip: persist, then load into a fresh ledger.
    let mut ledger = RedemptionLedger::new();
    ledger.mark_redeemed(100);
    ledger.mark_redeemed(-42);
    ledger.mark_redeemed(7);
    let bytes = encode_store(&ledger.sorted_ids());
    let reloaded = RedemptionLedger::from_ids(&decode_store(&bytes).unwrap());
    assert_eq!(reloaded.count(), 3);
    assert!(reloaded.is_redeemed(100));
    assert!(reloaded.is_redeemed(-42));
    assert!(reloaded.is_redeemed(7));
    assert!(!reloaded.is_redeemed(1));
}

#[test]
fn decode_accepts_any_order_and_duplicates() {
    let bytes = b"{\"redeemed_users\":[3,1,3]}".to_vec();
    assert_eq!(decode_store(&bytes), Some(vec![3i64, 1, 3]));
}

#[test]
fn decode_rejects_malformed_documents() {
    let bad: [&[u8]; 12] = [
        b"",
        b"{}",
        b"{\"redeemed_users\":[",
        b"{\"redeemed_users\":[]",
        b"{\"redeemed_users\":[]}}",
        b"{\"redeemed_users\":[1,]}",
        b"{\"redeemed_users\":[,1]}",
        b"{\"redeemed_users\":[1 ,2]}",
        b"{\"redeemed_users\":[a]}",
        b"{\"redeemed_users\":[1}",
        b"{\"redeemed\":[1]}",
        b"[1,2]",
    ];
    for bytes in bad {
        assert_eq!(decode_store(&bytes.to_vec()), None);
    }
}

#[test]
fn decode_rejects_non_canonical_numbers() {
    for bytes in [
        b"{\"redeemed_users\":[007]}".to_vec(),
        b"{\"redeemed_users\":[-0]}".to_vec(),
        b"{\"redeemed_users\":[+1]}".to_vec(),
        b"{\"redeemed_users\":[01]}".to_vec(),
    ] {
        assert_eq!(decode_store(&bytes), None);
    }
}

#[test]
fn decode_rejects_numbers_out_of_range() {
    // One beyond each 64-bit bound.
    let too_big = b"{\"redeemed_users\":[9223372036854775808]}".to_vec();
    let too_small = b"{\"redeemed_users\":[-9223372036854775809]}".to_vec();
    let way_off = b"{\"redeemed_users\":[99999999999999999999999]}".to_vec();
    assert_eq!(decode_store(&too_big), None);
    assert_eq!(decode_store(&too_small), None);
    assert_eq!(decode_store(&way_off), None);
}

#[test]
fn decode_accepts_the_64_bit_bounds() {
    let bytes = b"{\"redeemed_users\":[-9223372036854775808,9223372036854775807]}".to_vec();
    assert_eq!(
        decode_store(&bytes),
        Some(vec![-9223372036854775808i64, 9223372036854775807])
    );
}
