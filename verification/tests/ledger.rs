use giftcard_bot::ledger::RedemptionLedger;

#[test]
fn fresh_ledger_is_empty() {
    let ledger = RedemptionLedger::new();
    assert_eq!(ledger.count(), 0);
    assert!(!ledger.is_redeemed(100));
}

#[test]
fn first_redemption_is_recorded() {
    // Empty store, user 100 redeems: looked up as redeemed, count is 1.
    let mut ledger = RedemptionLedger::new();
    assert!(!ledger.is_redeemed(100));
    ledger.mark_redeemed(100);
    assert!(ledger.is_redeemed(100));
    assert_eq!(ledger.count(), 1);
}

#[test]
fn marking_twice_counts_once() {
    let mut ledger = RedemptionLedger::new();
    ledger.mark_redeemed(7);
    ledger.mark_redeemed(7);
    assert!(ledger.is_redeemed(7));
    assert_eq!(ledger.count(), 1);
}

#[test]
fn distinct_marks_raise_count_by_their_number() {
    // Marking n distinct, previously unredeemed users adds exactly n.
    let mut ledger = RedemptionLedger::new();
    ledger.mark_redeemed(1);
    let before = ledger.count();
    ledger.mark_redeemed(10);
    ledger.mark_redeemed(-3);
    ledger.mark_redeemed(42);
    assert_eq!(ledger.count(), before + 3);
}

#[test]
fn redemption_is_permanent() {
    let mut ledger = RedemptionLedger::new();
    ledger.mark_redeemed(5);
    for other in [9, -2, 5, 1_000_000_007] {
        ledger.mark_redeemed(other);
        assert!(ledger.is_redeemed(5));
    }
}

#[test]
fn loading_collapses_duplicates_and_ignores_order() {
    let ids = vec![3i64, -1, 3, 2, -1];
    let ledger = RedemptionLedger::from_ids(&ids);
    assert_eq!(ledger.count(), 3);
    assert!(ledger.is_redeemed(3));
    assert!(ledger.is_redeemed(-1));
    assert!(ledger.is_redeemed(2));
    assert!(!ledger.is_redeemed(0));
}

#[test]
fn sorted_ids_lists_ascending() {
    let ledger = RedemptionLedger::from_ids(&vec![5i64, -8, 0, 5]);
    assert_eq!(ledger.sorted_ids(), vec![-8i64, 0, 5]);
}

#[test]
fn marked_ids_previews_without_mutating() {
    let mut ledger = RedemptionLedger::from_ids(&vec![10i64, 30]);
    let preview = ledger.marked_ids(20);
    assert_eq!(preview, vec![10i64, 20, 30]);
    // The ledger itself is only marked afterwards, once the bytes are durable.
    assert!(!ledger.is_redeemed(20));
    ledger.mark_redeemed(20);
    assert_eq!(ledger.sorted_ids(), preview);
}
