//! Verified core of a TRON vanity-address generator: pattern rules, address
//! matching, address derivation and the bookkeeping around found wallets.
pub mod text;
pub mod shape;
pub mod pattern;
pub mod matching;
pub mod address;
pub mod records;
pub mod search;
