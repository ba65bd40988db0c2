//! The command dispatcher's decisions, as pure functions from the inbound
//! message, the ledger and the outside world's answers to the next action.
//! The loop that talks to the chat transport and the card issuer performs
//! each action and hands the outcome back; every rule about who gets a
//! giftcard lives here.

use vstd::prelude::*;
use crate::ledger::RedemptionLedger;
use crate::text::{bytes_eq, contains_bytes, contains_seq};

verus! {

/// What kind of chat a message arrived in.
#[derive(Clone, Copy, PartialEq, Eq, Structural, Debug)]
pub enum ChatKind {
    Private,
    Group,
    Supergroup,
    Other,
}

/// The fields of an inbound message that the rules read.
#[derive(Debug)]
pub struct InboundMessage {
    pub sender_id: i64,
    pub chat_id: i64,
    pub sender_username: Vec<u8>,
    pub text: Vec<u8>,
    pub chat_kind: ChatKind,
}

/// The configuration the dispatcher decides with.
#[derive(Debug)]
pub struct BotConfig {
    pub admin_username: Vec<u8>,
    pub bot_username: Vec<u8>,
    pub group_id: i64,
    pub days_per_giftcard: u32,
}

/// What a reply says; the wording of each notice is the transport
/// layer's business.
#[derive(Debug)]
pub enum Notice {
    AlreadyRedeemed,
    MustJoin,
    PleaseDirectMessage,
    RecipientCount(usize),
    Congratulations,
    GiftcardCode(Vec<u8>),
    RedeemInstructions,
}

/// One message to send.
#[derive(Debug)]
pub struct Reply {
    pub chat_id: i64,
    pub notice: Notice,
}

/// The dispatcher's first decision on an inbound message.
#[derive(Debug)]
pub enum Decision {
    Respond(Reply),
    CheckMembership { user_id: i64, group_id: i64 },
    Ignore,
}

/// The decision once the membership check has answered.
#[derive(Debug)]
pub enum MemberDecision {
    Issue { days: u32 },
    Respond(Reply),
}

/// How the issuer call went.
#[derive(Debug)]
pub enum IssueOutcome {
    Issued(Vec<u8>),
    Failed,
}

/// The bytes of the administrator's `#RecipientCount` command.
pub open spec fn count_command() -> Seq<u8> {
    seq![
        35u8, 82u8, 101u8, 99u8, 105u8, 112u8, 105u8, 101u8, 110u8, 116u8,
        67u8, 111u8, 117u8, 110u8, 116u8,
    ]
}

fn count_command_bytes() -> (r: Vec<u8>)
    ensures
        r@ == count_command(),
{
    let mut r: Vec<u8> = Vec::new();
    r.push(35);
    r.push(82);
    r.push(101);
    r.push(99);
    r.push(105);
    r.push(112);
    r.push(105);
    r.push(101);
    r.push(110);
    r.push(116);
    r.push(67);
    r.push(111);
    r.push(117);
    r.push(110);
    r.push(116);
    proof {
        assert(r@ =~= count_command());
    }
    r
}

/// The sender is the configured administrator.
pub open spec fn is_admin(cfg: &BotConfig, msg: &InboundMessage) -> bool {
    msg.sender_username@ == cfg.admin_username@
}

/// The message asks for the recipient count.
pub open spec fn wants_count(msg: &InboundMessage) -> bool {
    msg.text@ == count_command()
}

/// The message mentions the bot by `@` and its username.
pub open spec fn mentions_bot(cfg: &BotConfig, msg: &InboundMessage) -> bool {
    contains_seq(msg.text@, seq![64u8] + cfg.bot_username@)
}

fn mention_needle(bot_username: &Vec<u8>) -> (r: Vec<u8>)
    ensures
        r@ == seq![64u8] + bot_username@,
{
    let mut r: Vec<u8> = Vec::new();
    r.push(64);
    let mut i: usize = 0;
    while i < bot_username.len()
        invariant
            i <= bot_username@.len(),
            r@ == seq![64u8] + bot_username@.take(i as int),
        decreases bot_username@.len() - i,
    {
        r.push(bot_username[i]);
        proof {
            assert(r@ =~= seq![64u8] + bot_username@.take(i + 1));
        }
        i += 1;
    }
    proof {
        assert(bot_username@.take(bot_username@.len() as int) =~= bot_username@);
    }
    r
}

/// The first decision on an inbound message: answer the administrator's
/// count command; turn an already-redeemed user away; send a fresh user
/// to the membership check; in a group, ask for a direct message when
/// mentioned; ignore everything else. No issuer call and no ledger
/// change happens before a membership check was asked for and answered.
pub fn begin_request(cfg: &BotConfig, ledger: &RedemptionLedger, msg: &InboundMessage)
    -> (r: Decision)
    requires
        ledger.wf(),
    ensures
        msg.chat_kind == ChatKind::Private && is_admin(cfg, msg) && wants_count(msg)
            ==> (r matches Decision::Respond(rep) && rep.chat_id == msg.chat_id
                && (rep.notice matches Notice::RecipientCount(n) && n == ledger@.len())),
        msg.chat_kind == ChatKind::Private && is_admin(cfg, msg) && !wants_count(msg)
            ==> r == Decision::Ignore,
        msg.chat_kind == ChatKind::Private && !is_admin(cfg, msg)
            && ledger@.contains(msg.sender_id)
            ==> r == (Decision::Respond(Reply {
                chat_id: msg.chat_id,
                notice: Notice::AlreadyRedeemed,
            })),
        msg.chat_kind == ChatKind::Private && !is_admin(cfg, msg)
            && !ledger@.contains(msg.sender_id)
            ==> r == (Decision::CheckMembership {
                user_id: msg.sender_id,
                group_id: cfg.group_id,
            }),
        (msg.chat_kind == ChatKind::Group || msg.chat_kind == ChatKind::Supergroup)
            && mentions_bot(cfg, msg)
            ==> r == (Decision::Respond(Reply {
                chat_id: msg.chat_id,
                notice: Notice::PleaseDirectMessage,
            })),
        (msg.chat_kind == ChatKind::Group || msg.chat_kind == ChatKind::Supergroup)
            && !mentions_bot(cfg, msg)
            ==> r == Decision::Ignore,
        msg.chat_kind == ChatKind::Other ==> r == Decision::Ignore,
{
    match msg.chat_kind {
        ChatKind::Private => {
            if bytes_eq(&msg.sender_username, &cfg.admin_username) {
                let command = count_command_bytes();
                if bytes_eq(&msg.text, &command) {
                    Decision::Respond(Reply {
                        chat_id: msg.chat_id,
                        notice: Notice::RecipientCount(ledger.count()),
                    })
                } else {
                    Decision::Ignore
                }
            } else {
                if ledger.is_redeemed(msg.sender_id) {
                    Decision::Respond(Reply {
                        chat_id: msg.chat_id,
                        notice: Notice::AlreadyRedeemed,
                    })
                } else {
                    Decision::CheckMembership {
                        user_id: msg.sender_id,
                        group_id: cfg.group_id,
                    }
                }
            }
        },
        ChatKind::Group | ChatKind::Supergroup => {
            let needle = mention_needle(&cfg.bot_username);
            if contains_bytes(&msg.text, &needle) {
                Decision::Respond(Reply {
                    chat_id: msg.chat_id,
                    notice: Notice::PleaseDirectMessage,
                })
            } else {
                Decision::Ignore
            }
        },
        ChatKind::Other => Decision::Ignore,
    }
}

/// The bytes of the member statuses that grant a giftcard.
pub open spec fn member_status() -> Seq<u8> {
    seq![109u8, 101u8, 109u8, 98u8, 101u8, 114u8]
}

/// The bytes of `administrator`.
pub open spec fn administrator_status() -> Seq<u8> {
    seq![
        97u8, 100u8, 109u8, 105u8, 110u8, 105u8, 115u8, 116u8, 114u8, 97u8,
        116u8, 111u8, 114u8,
    ]
}

/// The bytes of `creator`.
pub open spec fn creator_status() -> Seq<u8> {
    seq![99u8, 114u8, 101u8, 97u8, 116u8, 111u8, 114u8]
}

/// A membership status that counts as being in the group.
pub open spec fn status_grants(status: Seq<u8>) -> bool {
    status == member_status() || status == administrator_status()
        || status == creator_status()
}

fn member_status_bytes() -> (r: Vec<u8>)
    ensures
        r@ == member_status(),
{
    let mut r: Vec<u8> = Vec::new();
    r.push(109);
    r.push(101);
    r.push(109);
    r.push(98);
    r.push(101);
    r.push(114);
    proof {
        assert(r@ =~= member_status());
    }
    r
}

fn administrator_status_bytes() -> (r: Vec<u8>)
    ensures
        r@ == administrator_status(),
{
    let mut r: Vec<u8> = Vec::new();
    r.push(97);
    r.push(100);
    r.push(109);
    r.push(105);
    r.push(110);
    r.push(105);
    r.push(115);
    r.push(116);
    r.push(114);
    r.push(97);
    r.push(116);
    r.push(111);
    r.push(114);
    proof {
        assert(r@ =~= administrator_status());
    }
    r
}

fn creator_status_bytes() -> (r: Vec<u8>)
    ensures
        r@ == creator_status(),
{
    let mut r: Vec<u8> = Vec::new();
    r.push(99);
    r.push(114);
    r.push(101);
    r.push(97);
    r.push(116);
    r.push(111);
    r.push(114);
    proof {
        assert(r@ =~= creator_status());
    }
    r
}

/// Reads the membership-lookup answer: only the granting statuses count,
/// and a missing answer — the transport failed — counts as not a member,
/// failing closed.
pub fn membership_from_status(status: &Option<Vec<u8>>) -> (r: bool)
    ensures
        r == (status matches Some(s) && status_grants(s@)),
{
    match status {
        None => false,
        Some(s) => {
            let m = member_status_bytes();
            let a = administrator_status_bytes();
            let c = creator_status_bytes();
            if bytes_eq(s, &m) {
                true
            } else if bytes_eq(s, &a) {
                true
            } else {
                bytes_eq(s, &c)
            }
        },
    }
}

/// The decision once membership is known: a member is owed an issuer
/// call; anyone else is told to join the group first.
pub fn resolve_membership(cfg: &BotConfig, msg: &InboundMessage, is_member: bool)
    -> (r: MemberDecision)
    ensures
        is_member ==> r == (MemberDecision::Issue { days: cfg.days_per_giftcard }),
        !is_member ==> r == (MemberDecision::Respond(Reply {
            chat_id: msg.chat_id,
            notice: Notice::MustJoin,
        })),
{
    if is_member {
        MemberDecision::Issue { days: cfg.days_per_giftcard }
    } else {
        MemberDecision::Respond(Reply {
            chat_id: msg.chat_id,
            notice: Notice::MustJoin,
        })
    }
}

/// The end of a request, whatever the issuer call came to. A failed call
/// leaves the ledger untouched and sends nothing: the user can simply ask
/// again. A successful call marks the sender redeemed and hands back, in
/// order, the congratulation, the code itself, and the redeem
/// instructions.
pub fn complete_request(ledger: &mut RedemptionLedger, msg: &InboundMessage,
    outcome: IssueOutcome) -> (r: Option<Vec<Reply>>)
    requires
        old(ledger).wf(),
    ensures
        final(ledger).wf(),
        outcome matches IssueOutcome::Issued(code) ==> {
            &&& final(ledger)@ == old(ledger)@.insert(msg.sender_id)
            &&& r matches Some(rs)
            &&& rs@.len() == 3
            &&& rs@[0].chat_id == msg.sender_id
            &&& rs@[0].notice == Notice::Congratulations
            &&& rs@[1].chat_id == msg.sender_id
            &&& (rs@[1].notice matches Notice::GiftcardCode(c) && c@ == code@)
            &&& rs@[2].chat_id == msg.chat_id
            &&& rs@[2].notice == Notice::RedeemInstructions
        },
        outcome matches IssueOutcome::Failed ==> {
            &&& final(ledger)@ == old(ledger)@
            &&& r is None
        },
{
    match outcome {
        IssueOutcome::Issued(code) => {
            ledger.mark_redeemed(msg.sender_id);
            let mut rs: Vec<Reply> = Vec::new();
            rs.push(Reply { chat_id: msg.sender_id, notice: Notice::Congratulations });
            rs.push(Reply {
                chat_id: msg.sender_id,
                notice: Notice::GiftcardCode(code),
            });
            rs.push(Reply { chat_id: msg.chat_id, notice: Notice::RedeemInstructions });
            Some(rs)
        },
        IssueOutcome::Failed => None,
    }
}

} // verus!
