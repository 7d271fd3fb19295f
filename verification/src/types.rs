use vstd::prelude::*;

use crate::address::Address;

verus! {

/// Lifecycle of a group. A group accepts contributions only while active;
/// it is completed once every member has received the pot.
#[derive(Clone, Copy, Debug, PartialEq, Eq, Structural)]
pub enum GroupStatus {
    Active,
    Completed,
    Paused,
}

/// A savings group as kept in the group registry.
#[derive(Clone, Debug, PartialEq, Eq)]
pub struct PaluwagGroup {
    pub group_id: u64,
    pub organizer: Address,
    pub token_contract: Address,
    /// How many members the group holds when full; also the number of turns.
    pub member_count: u32,
    /// What every member pays in every round.
    pub contribution_amount: i128,
    pub frequency_days: u32,
    pub status: GroupStatus,
    pub created_at: u64,
    pub current_cycle: u32,
    /// Position in the roster of the member whose turn it is.
    pub current_recipient_index: u32,
    /// Contributions received in the current round.
    pub contributions_this_cycle: u32,
}

/// A member of a group, in joining order.
#[derive(Clone, Debug, PartialEq, Eq)]
pub struct Member {
    pub address: Address,
    pub index: u32,
    pub join_date: u64,
    pub total_contributed: i128,
    pub payouts_received: u32,
}

/// One payment into a group's escrow.
#[derive(Clone, Debug, PartialEq, Eq)]
pub struct Contribution {
    pub member: Address,
    pub group_id: u64,
    pub cycle: u32,
    pub amount: i128,
    pub timestamp: u64,
}

/// A summary of a group's current round.
#[derive(Clone, Copy, Debug, PartialEq, Eq, Structural)]
pub struct CycleInfo {
    pub group_id: u64,
    pub cycle_number: u32,
    pub total_pot: i128,
    pub current_recipient_index: u32,
    pub contributions_received: u32,
    pub expected_contributions: u32,
    pub is_fully_funded: bool,
    pub cycle_started_at: u64,
}

/// A token payment from a member into the group's escrow, to be carried out
/// by the host once a contribution has been accepted.
#[derive(Clone, Debug, PartialEq, Eq)]
pub struct Deposit {
    pub token: Address,
    pub from: Address,
    pub amount: i128,
}

/// A token payment of the pot out of the group's escrow to the member whose
/// turn it was, to be carried out by the host once a claim has been accepted.
#[derive(Clone, Debug, PartialEq, Eq)]
pub struct Payout {
    pub token: Address,
    pub recipient: Address,
    pub amount: i128,
}

/// Why a request was refused. A refused request changes nothing.
#[derive(Clone, Copy, Debug, PartialEq, Eq, Structural)]
pub enum PaluwaganError {
    InvalidMemberCount,
    InvalidContributionAmount,
    InvalidFrequency,
    GroupNotFound,
    MemberAlreadyExists,
    GroupFull,
    GroupNotActive,
    AmountMismatch,
    MemberNotFound,
    AlreadyContributed,
    CycleNotFunded,
    NoMembers,
    RecipientMissing,
    ArithmeticError,
}

impl PaluwaganError {
    /// The text with which the contract aborts on this refusal.
    pub fn message(&self) -> (s: &'static str)
        ensures
            s@ == error_message(*self),
    {
        match self {
            PaluwaganError::InvalidMemberCount => "Member count must be between 2 and 100",
            PaluwaganError::InvalidContributionAmount => "Contribution amount must be positive",
            PaluwaganError::InvalidFrequency => "Frequency must be at least 1 day",
            PaluwaganError::GroupNotFound => "Group not found",
            PaluwaganError::MemberAlreadyExists => "Member already exists in group",
            PaluwaganError::GroupFull => "Group is at full capacity",
            PaluwaganError::GroupNotActive => "Group is not active",
            PaluwaganError::AmountMismatch => "Amount does not match group contribution",
            PaluwaganError::MemberNotFound => "Member not found in group",
            PaluwaganError::AlreadyContributed => "Member already contributed this cycle",
            PaluwaganError::CycleNotFunded => "Cycle not fully funded yet",
            PaluwaganError::NoMembers => "No members in group",
            PaluwaganError::RecipientMissing => "Recipient index out of range",
            PaluwaganError::ArithmeticError => "Arithmetic overflow",
        }
    }
}

/// The abort text of each refusal.
pub open spec fn error_message(e: PaluwaganError) -> Seq<char> {
    match e {
        PaluwaganError::InvalidMemberCount => "Member count must be between 2 and 100"@,
        PaluwaganError::InvalidContributionAmount => "Contribution amount must be positive"@,
        PaluwaganError::InvalidFrequency => "Frequency must be at least 1 day"@,
        PaluwaganError::GroupNotFound => "Group not found"@,
        PaluwaganError::MemberAlreadyExists => "Member already exists in group"@,
        PaluwaganError::GroupFull => "Group is at full capacity"@,
        PaluwaganError::GroupNotActive => "Group is not active"@,
        PaluwaganError::AmountMismatch => "Amount does not match group contribution"@,
        PaluwaganError::MemberNotFound => "Member not found in group"@,
        PaluwaganError::AlreadyContributed => "Member already contributed this cycle"@,
        PaluwaganError::CycleNotFunded => "Cycle not fully funded yet"@,
        PaluwaganError::NoMembers => "No members in group"@,
        PaluwaganError::RecipientMissing => "Recipient index out of range"@,
        PaluwaganError::ArithmeticError => "Arithmetic overflow"@,
    }
}

impl PaluwagGroup {
    /// An identical copy.
    pub fn duplicate(&self) -> (r: PaluwagGroup)
        ensures
            r == *self,
    {
        PaluwagGroup {
            group_id: self.group_id,
            organizer: self.organizer.duplicate(),
            token_contract: self.token_contract.duplicate(),
            member_count: self.member_count,
            contribution_amount: self.contribution_amount,
            frequency_days: self.frequency_days,
            status: self.status,
            created_at: self.created_at,
            current_cycle: self.current_cycle,
            current_recipient_index: self.current_recipient_index,
            contributions_this_cycle: self.contributions_this_cycle,
        }
    }
}

impl Member {
    /// An identical copy.
    pub fn duplicate(&self) -> (r: Member)
        ensures
            r == *self,
    {
        Member {
            address: self.address.duplicate(),
            index: self.index,
            join_date: self.join_date,
            total_contributed: self.total_contributed,
            payouts_received: self.payouts_received,
        }
    }
}

} // verus!
