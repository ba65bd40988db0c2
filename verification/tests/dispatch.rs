use giftcard_bot::dispatch::{
    begin_request, complete_request, membership_from_status, resolve_membership, BotConfig,
    ChatKind, Decision, InboundMessage, IssueOutcome, MemberDecision, Notice,
};
use giftcard_bot::ledger::RedemptionLedger;

fn config() -> BotConfig {
    BotConfig {
        admin_username: b"root_admin".to_vec(),
        bot_username: b"giftbot".to_vec(),
        group_id: -100123,
        days_per_giftcard: 3,
    }
}

fn private_message(sender_id: i64, username: &[u8], text: &[u8]) -> InboundMessage {
    InboundMessage {
        sender_id,
        chat_id: sender_id,
        sender_username: username.to_vec(),
        text: text.to_vec(),
        chat_kind: ChatKind::Private,
    }
}

#[test]
fn fresh_user_is_sent_to_the_membership_check() {
    let ledger = RedemptionLedger::new();
    let msg = private_message(100, b"alice", b"hi");
    let decision = begin_request(&config(), &ledger, &msg);
    match decision {
        Decision::CheckMembership { user_id, group_id } => {
            assert_eq!(user_id, 100);
            assert_eq!(group_id, -100123);
        }
        other => panic!("expected a membership check, got {:?}", other),
    }
}

#[test]
fn redeemed_user_is_turned_away_without_an_issuer_call() {
    // A repeat request answers with the already-redeemed notice, asks for
    // no membership check (so no issuer call can follow), and leaves the
    // ledger as it was.
    let mut ledger = RedemptionLedger::new();
    ledger.mark_redeemed(100);
    let msg = private_message(100, b"alice", b"hi again");
    let decision = begin_request(&config(), &ledger, &msg);
    match decision {
        Decision::Respond(rep) => {
            assert_eq!(rep.chat_id, 100);
            assert!(matches!(rep.notice, Notice::AlreadyRedeemed));
        }
        other => panic!("expected the already-redeemed notice, got {:?}", other),
    }
    assert_eq!(ledger.count(), 1);
}

#[test]
fn non_member_is_told_to_join_and_no_issuer_call_is_made() {
    let decision = resolve_membership(
        &config(),
        &private_message(100, b"alice", b"hi"),
        false,
    );
    match decision {
        MemberDecision::Respond(rep) => {
            assert_eq!(rep.chat_id, 100);
            assert!(matches!(rep.notice, Notice::MustJoin));
        }
        MemberDecision::Issue { .. } => panic!("a non-member must not reach the issuer"),
    }
}

#[test]
fn member_is_owed_an_issuer_call() {
    let decision = resolve_membership(&config(), &private_message(100, b"alice", b"hi"), true);
    assert!(matches!(decision, MemberDecision::Issue { days: 3 }));
}

#[test]
fn failed_issuance_leaves_no_ledger_mark() {
    let mut ledger = RedemptionLedger::new();
    let msg = private_message(100, b"alice", b"hi");
    let replies = complete_request(&mut ledger, &msg, IssueOutcome::Failed);
    assert!(replies.is_none());
    assert!(!ledger.is_redeemed(100));
    assert_eq!(ledger.count(), 0);
}

#[test]
fn successful_issuance_marks_and_delivers() {
    let mut ledger = RedemptionLedger::new();
    let msg = private_message(100, b"alice", b"hi");
    let replies =
        complete_request(&mut ledger, &msg, IssueOutcome::Issued(b"CARD-123".to_vec()))
            .expect("a successful issuance delivers");
    assert!(ledger.is_redeemed(100));
    assert_eq!(ledger.count(), 1);
    assert_eq!(replies.len(), 3);
    assert_eq!(replies[0].chat_id, 100);
    assert!(matches!(replies[0].notice, Notice::Congratulations));
    assert_eq!(replies[1].chat_id, 100);
    match &replies[1].notice {
        Notice::GiftcardCode(code) => assert_eq!(code, &b"CARD-123".to_vec()),
        other => panic!("expected the code, got {:?}", other),
    }
    assert_eq!(replies[2].chat_id, 100);
    assert!(matches!(replies[2].notice, Notice::RedeemInstructions));
}

#[test]
fn admin_count_command_reports_the_count() {
    let mut ledger = RedemptionLedger::new();
    ledger.mark_redeemed(1);
    ledger.mark_redeemed(2);
    let msg = private_message(555, b"root_admin", b"#RecipientCount");
    let decision = begin_request(&config(), &ledger, &msg);
    match decision {
        Decision::Respond(rep) => {
            assert_eq!(rep.chat_id, 555);
            assert!(matches!(rep.notice, Notice::RecipientCount(2)));
        }
        other => panic!("expected the count, got {:?}", other),
    }
}

#[test]
fn admin_small_talk_is_ignored() {
    let ledger = RedemptionLedger::new();
    let msg = private_message(555, b"root_admin", b"hello");
    assert!(matches!(
        begin_request(&config(), &ledger, &msg),
        Decision::Ignore
    ));
}

#[test]
fn group_mention_asks_for_a_direct_message() {
    let ledger = RedemptionLedger::new();
    let msg = InboundMessage {
        sender_id: 100,
        chat_id: -100123,
        sender_username: b"alice".to_vec(),
        text: b"hey @giftbot give me a card".to_vec(),
        chat_kind: ChatKind::Supergroup,
    };
    match begin_request(&config(), &ledger, &msg) {
        Decision::Respond(rep) => {
            assert_eq!(rep.chat_id, -100123);
            assert!(matches!(rep.notice, Notice::PleaseDirectMessage));
        }
        other => panic!("expected the direct-message notice, got {:?}", other),
    }
}

#[test]
fn group_chatter_without_mention_is_ignored() {
    let ledger = RedemptionLedger::new();
    let msg = InboundMessage {
        sender_id: 100,
        chat_id: -100123,
        sender_username: b"alice".to_vec(),
        text: b"just chatting".to_vec(),
        chat_kind: ChatKind::Group,
    };
    assert!(matches!(
        begin_request(&config(), &ledger, &msg),
        Decision::Ignore
    ));
}

#[test]
fn unknown_chat_kinds_are_ignored() {
    let ledger = RedemptionLedger::new();
    let msg = InboundMessage {
        sender_id: 100,
        chat_id: 9,
        sender_username: b"alice".to_vec(),
        text: b"hi".to_vec(),
        chat_kind: ChatKind::Other,
    };
    assert!(matches!(
        begin_request(&config(), &ledger, &msg),
        Decision::Ignore
    ));
}

#[test]
fn membership_statuses_grant_and_deny() {
    assert!(membership_from_status(&Some(b"member".to_vec())));
    assert!(membership_from_status(&Some(b"administrator".to_vec())));
    assert!(membership_from_status(&Some(b"creator".to_vec())));
    assert!(!membership_from_status(&Some(b"left".to_vec())));
    assert!(!membership_from_status(&Some(b"kicked".to_vec())));
    assert!(!membership_from_status(&Some(b"".to_vec())));
    // A transport failure fails closed.
    assert!(!membership_from_status(&None));
}
