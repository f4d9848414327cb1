//! Looks up the slot of the earliest recorded transaction for an on-chain
//! program address, as a proxy for the program's deployment point.
//!
//! The crate holds the decision logic of the lookup: parsing the base-58
//! program identifier, selecting the oldest signature from a listing, and
//! reading the slot out of the fetched transaction detail. A driver performs
//! the two remote calls and feeds their results back as plain values.

pub mod base58;
pub mod lookup;
