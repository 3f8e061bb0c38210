//! An on-chain ledger core: a fixed-record score store and a token ledger,
//! each kept in a raw account buffer and mutated only through a verified
//! codec and verified state transitions.
pub mod auth;
pub mod error;
pub mod identity;
pub mod score;
pub mod dispatch;
pub mod token;
pub mod codec;
pub mod ledger;
