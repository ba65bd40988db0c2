//! A library for a giftcard-distributing chat bot.
//!
//! The core is a durable redemption ledger: a set of user identifiers that
//! have already received a giftcard, persisted as a small JSON document.
//! Around it stand the byte-level codec for that document, the decision
//! logic of the command dispatcher, and the pure parts of the card-issuer
//! exchange. File and network I/O live outside the library.

pub mod text;
pub mod ledger;
pub mod codec;
pub mod issue;
pub mod dispatch;
