//! Paluwagan: a rotating savings group (ROSCA) held in escrow on a ledger.
//!
//! Every member pays a fixed amount each round; once the round is fully
//! funded the member whose turn it is receives the whole pot, and the turn
//! passes to the next member in joining order. After every member has had
//! a turn the group is completed.
//!
//! The library holds the contract's persistent storage as plain values
//! ([`ledger::PaluwaganNiJuan`]) and decides every operation on it. What the
//! host does around a decision (authorisation, token transfers, reading and
//! writing the ledger entries) is done by the caller with the values the
//! library hands back.
use vstd::prelude::*;

pub mod address;
pub mod types;
pub mod ledger;
pub mod laws;

pub use address::Address;
pub use types::{
    Contribution, CycleInfo, Deposit, GroupStatus, Member, PaluwaganError, PaluwagGroup, Payout,
};
pub use ledger::PaluwaganNiJuan;

verus! {

} // verus!
