use std::collections::HashMap;

use vstd::prelude::*;

use crate::address::Address;
use crate::types::{
    Contribution, CycleInfo, Deposit, GroupStatus, Member, PaluwaganError, PaluwagGroup, Payout,
};

verus! {

broadcast use vstd::std_specs::hash::group_hash_axioms;

/// The contract's persistent storage: the group registry, the counter that
/// numbers new groups, each group's member roster, and each group's
/// contribution records, kept per cycle.
///
/// An entry that is absent reads as an empty list, as on the ledger.
pub struct PaluwaganNiJuan {
    /// The number the next group will get; absent until the first group.
    pub next_group_id: Option<u64>,
    /// Every group, in creation order.
    pub groups: Vec<PaluwagGroup>,
    /// Members of each group, by group number, in joining order.
    pub members: HashMap<u64, Vec<Member>>,
    /// Contribution records by group number, then by cycle, in order of payment.
    pub contributions: HashMap<u64, HashMap<u32, Vec<Contribution>>>,
}

/// The storage as mathematical values.
#[verifier::ext_equal]
pub struct LedgerView {
    pub next_group_id: Option<u64>,
    pub groups: Seq<PaluwagGroup>,
    pub members: Map<u64, Seq<Member>>,
    pub contributions: Map<(u64, u32), Seq<Contribution>>,
}

impl View for PaluwaganNiJuan {
    type V = LedgerView;

    open spec fn view(&self) -> LedgerView {
        LedgerView {
            next_group_id: self.next_group_id,
            groups: self.groups@,
            members: self.members@.map_values(|v: Vec<Member>| v@),
            contributions: Map::new(
                |k: (u64, u32)|
                    self.contributions@.contains_key(k.0) && self.contributions@[k.0]@.contains_key(
                        k.1,
                    ),
                |k: (u64, u32)| self.contributions@[k.0]@[k.1]@,
            ),
        }
    }
}

// ==================== THE MODEL ====================

impl LedgerView {
    /// The number the next group will get.
    pub open spec fn next_id(self) -> u64 {
        match self.next_group_id {
            Some(n) => n,
            None => 1,
        }
    }

    /// Position in the registry of the first group with this number.
    pub open spec fn group_index(self, group_id: u64) -> Option<int> {
        first_group_with_id(self.groups, group_id)
    }

    /// The members of a group.
    pub open spec fn roster(self, group_id: u64) -> Seq<Member> {
        if self.members.contains_key(group_id) {
            self.members[group_id]
        } else {
            Seq::empty()
        }
    }

    /// The contribution records of a group in one cycle.
    pub open spec fn log(self, group_id: u64, cycle: u32) -> Seq<Contribution> {
        if self.contributions.contains_key((group_id, cycle)) {
            self.contributions[(group_id, cycle)]
        } else {
            Seq::empty()
        }
    }
}

pub open spec fn is_first_group(groups: Seq<PaluwagGroup>, group_id: u64, i: int) -> bool {
    &&& 0 <= i < groups.len()
    &&& groups[i].group_id == group_id
    &&& forall|j: int| 0 <= j < i ==> groups[j].group_id != group_id
}

pub open spec fn first_group_with_id(groups: Seq<PaluwagGroup>, group_id: u64) -> Option<int> {
    if exists|i: int| is_first_group(groups, group_id, i) {
        Some(choose|i: int| is_first_group(groups, group_id, i))
    } else {
        None
    }
}

pub open spec fn is_first_member(roster: Seq<Member>, who: Seq<char>, i: int) -> bool {
    &&& 0 <= i < roster.len()
    &&& roster[i].address@ == who
    &&& forall|j: int| 0 <= j < i ==> roster[j].address@ != who
}

/// Position in the roster of the first member with this address.
pub open spec fn member_position(roster: Seq<Member>, who: Seq<char>) -> Option<int> {
    if exists|i: int| is_first_member(roster, who, i) {
        Some(choose|i: int| is_first_member(roster, who, i))
    } else {
        None
    }
}

/// The records of the round in progress: the last `received` records of the
/// cycle's log (all of it, should it be shorter).
pub open spec fn current_round(log: Seq<Contribution>, received: u32) -> Seq<Contribution> {
    if received <= log.len() {
        log.subrange(log.len() - received, log.len() as int)
    } else {
        log
    }
}

/// Whether `who` paid among these records.
pub open spec fn paid_in(round: Seq<Contribution>, who: Seq<char>) -> bool {
    exists|i: int| 0 <= i < round.len() && round[i].member@ == who
}

/// What the member whose turn it is receives: every member's contribution.
pub open spec fn pot(g: PaluwagGroup) -> int {
    g.contribution_amount * g.member_count
}

pub open spec fn fits_i128(x: int) -> bool {
    i128::MIN <= x <= i128::MAX
}

pub open spec fn new_group(
    group_id: u64,
    organizer: Address,
    token_contract: Address,
    member_count: u32,
    contribution_amount: i128,
    frequency_days: u32,
    now: u64,
) -> PaluwagGroup {
    PaluwagGroup {
        group_id,
        organizer,
        token_contract,
        member_count,
        contribution_amount,
        frequency_days,
        status: GroupStatus::Active,
        created_at: now,
        current_cycle: 1,
        current_recipient_index: 0,
        contributions_this_cycle: 0,
    }
}

/// Why `initialize` refuses, if it does.
pub open spec fn initialize_refusal(
    s: LedgerView,
    member_count: u32,
    contribution_amount: i128,
    frequency_days: u32,
) -> Option<PaluwaganError> {
    if member_count < 2 || member_count > 100 {
        Some(PaluwaganError::InvalidMemberCount)
    } else if contribution_amount <= 0 {
        Some(PaluwaganError::InvalidContributionAmount)
    } else if frequency_days == 0 {
        Some(PaluwaganError::InvalidFrequency)
    } else if s.next_id() == u64::MAX {
        Some(PaluwaganError::ArithmeticError)
    } else {
        None
    }
}

/// Creating a group: it takes the next number, joins the registry active,
/// in cycle 1 with member 0 to receive first, and gets an empty roster.
pub open spec fn initialize_step(
    s: LedgerView,
    organizer: Address,
    token_contract: Address,
    member_count: u32,
    contribution_amount: i128,
    frequency_days: u32,
    now: u64,
) -> (LedgerView, Result<u64, PaluwaganError>) {
    match initialize_refusal(s, member_count, contribution_amount, frequency_days) {
        Some(e) => (s, Err(e)),
        None => {
            let id = s.next_id();
            let g = new_group(
                id,
                organizer,
                token_contract,
                member_count,
                contribution_amount,
                frequency_days,
                now,
            );
            (
                LedgerView {
                    next_group_id: Some((id + 1) as u64),
                    groups: s.groups.push(g),
                    members: s.members.insert(id, Seq::empty()),
                    contributions: s.contributions,
                },
                Ok(id),
            )
        },
    }
}

/// Adding a member: refused for an unknown group, an address already on the
/// roster, or a full roster; otherwise the member joins at the end of the
/// roster with nothing paid and nothing received.
pub open spec fn add_member_step(s: LedgerView, group_id: u64, who: Address, now: u64) -> (
    LedgerView,
    Result<bool, PaluwaganError>,
) {
    match s.group_index(group_id) {
        None => (s, Err(PaluwaganError::GroupNotFound)),
        Some(gi) => {
            let g = s.groups[gi];
            let m = s.roster(group_id);
            if member_position(m, who@) is Some {
                (s, Err(PaluwaganError::MemberAlreadyExists))
            } else if m.len() >= g.member_count {
                (s, Err(PaluwaganError::GroupFull))
            } else {
                let joined = Member {
                    address: who,
                    index: m.len() as u32,
                    join_date: now,
                    total_contributed: 0,
                    payouts_received: 0,
                };
                (
                    LedgerView {
                        next_group_id: s.next_group_id,
                        groups: s.groups,
                        members: s.members.insert(group_id, m.push(joined)),
                        contributions: s.contributions,
                    },
                    Ok(true),
                )
            }
        },
    }
}

/// Paying into the current round: refused for an unknown or inactive group,
/// a wrong amount, someone not on the roster, or a member who already paid
/// in this round; otherwise the payment is recorded in the cycle's log,
/// added to the member's total and counted for the round, and the deposit
/// of exactly the group's amount into escrow is handed back.
pub open spec fn contribute_step(
    s: LedgerView,
    group_id: u64,
    who: Address,
    amount: i128,
    now: u64,
) -> (LedgerView, Result<Deposit, PaluwaganError>) {
    match s.group_index(group_id) {
        None => (s, Err(PaluwaganError::GroupNotFound)),
        Some(gi) => {
            let g = s.groups[gi];
            let m = s.roster(group_id);
            let log = s.log(group_id, g.current_cycle);
            if g.status != GroupStatus::Active {
                (s, Err(PaluwaganError::GroupNotActive))
            } else if amount != g.contribution_amount {
                (s, Err(PaluwaganError::AmountMismatch))
            } else {
                match member_position(m, who@) {
                    None => (s, Err(PaluwaganError::MemberNotFound)),
                    Some(mi) => {
                        if paid_in(current_round(log, g.contributions_this_cycle), who@) {
                            (s, Err(PaluwaganError::AlreadyContributed))
                        } else if !fits_i128(m[mi].total_contributed + amount)
                            || g.contributions_this_cycle == u32::MAX {
                            (s, Err(PaluwaganError::ArithmeticError))
                        } else {
                            let payer = Member {
                                total_contributed: (m[mi].total_contributed + amount) as i128,
                                ..m[mi]
                            };
                            let record = Contribution {
                                member: who,
                                group_id,
                                cycle: g.current_cycle,
                                amount,
                                timestamp: now,
                            };
                            let g2 = PaluwagGroup {
                                contributions_this_cycle: (g.contributions_this_cycle + 1) as u32,
                                ..g
                            };
                            (
                                LedgerView {
                                    next_group_id: s.next_group_id,
                                    groups: s.groups.update(gi, g2),
                                    members: s.members.insert(group_id, m.update(mi, payer)),
                                    contributions: s.contributions.insert(
                                        (group_id, g.current_cycle),
                                        log.push(record),
                                    ),
                                },
                                Ok(Deposit { token: g.token_contract, from: who, amount }),
                            )
                        }
                    },
                }
            }
        },
    }
}

/// The roster position that receives after `idx` in a group of `count`.
pub open spec fn next_recipient(idx: u32, count: u32) -> u32 {
    ((idx + 1) % (count as int)) as u32
}

/// Whether a claim that got this far would overflow a counter or the pot.
pub open spec fn claim_overflows(g: PaluwagGroup, recipient: Member) -> bool {
    ||| !fits_i128(pot(g))
    ||| recipient.payouts_received == u32::MAX
    ||| g.current_recipient_index == u32::MAX
    ||| g.member_count == 0
    ||| (next_recipient(g.current_recipient_index, g.member_count) == 0 && g.current_cycle
        == u32::MAX)
}

/// Claiming the pot: refused for an unknown group or a round not yet fully
/// funded (or a roster without the member whose turn it is); otherwise the
/// member at the current turn is paid the pot, the turn passes to the next
/// member (back to the first one, in the next cycle, after the last), the
/// round count restarts at 0, and the group is completed once the turn has
/// come back round.
pub open spec fn claim_payout_step(s: LedgerView, group_id: u64) -> (
    LedgerView,
    Result<Payout, PaluwaganError>,
) {
    match s.group_index(group_id) {
        None => (s, Err(PaluwaganError::GroupNotFound)),
        Some(gi) => {
            let g = s.groups[gi];
            let m = s.roster(group_id);
            let idx = g.current_recipient_index;
            if g.contributions_this_cycle < g.member_count {
                (s, Err(PaluwaganError::CycleNotFunded))
            } else if m.len() == 0 {
                (s, Err(PaluwaganError::NoMembers))
            } else if idx >= m.len() {
                (s, Err(PaluwaganError::RecipientMissing))
            } else if claim_overflows(g, m[idx as int]) {
                (s, Err(PaluwaganError::ArithmeticError))
            } else {
                let r = m[idx as int];
                let paid = Member { payouts_received: (r.payouts_received + 1) as u32, ..r };
                let next = next_recipient(idx, g.member_count);
                let cycle = if next == 0 {
                    (g.current_cycle + 1) as u32
                } else {
                    g.current_cycle
                };
                let g2 = PaluwagGroup {
                    current_recipient_index: next,
                    current_cycle: cycle,
                    contributions_this_cycle: 0,
                    status: if next == 0 && cycle > 1 {
                        GroupStatus::Completed
                    } else {
                        g.status
                    },
                    ..g
                };
                (
                    LedgerView {
                        next_group_id: s.next_group_id,
                        groups: s.groups.update(gi, g2),
                        members: s.members.insert(group_id, m.update(idx as int, paid)),
                        contributions: s.contributions,
                    },
                    Ok(Payout { token: g.token_contract, recipient: r.address, amount: pot(g) as i128 }),
                )
            }
        },
    }
}

/// The summary of a group's round.
pub open spec fn cycle_info_of(g: PaluwagGroup) -> CycleInfo {
    CycleInfo {
        group_id: g.group_id,
        cycle_number: g.current_cycle,
        total_pot: pot(g) as i128,
        current_recipient_index: g.current_recipient_index,
        contributions_received: g.contributions_this_cycle,
        expected_contributions: g.member_count,
        is_fully_funded: g.contributions_this_cycle >= g.member_count,
        cycle_started_at: g.created_at,
    }
}

// ==================== LOOKUP LEMMAS ====================

pub(crate) proof fn lemma_first_group(groups: Seq<PaluwagGroup>, group_id: u64, i: int)
    requires
        is_first_group(groups, group_id, i),
    ensures
        first_group_with_id(groups, group_id) == Some(i),
{
    let c = choose|c: int| is_first_group(groups, group_id, c);
    assert(is_first_group(groups, group_id, c));
    if c < i {
        assert(groups[c].group_id != group_id);
    } else if c > i {
        assert(groups[i].group_id != group_id);
    }
}

proof fn lemma_first_member(roster: Seq<Member>, who: Seq<char>, i: int)
    requires
        is_first_member(roster, who, i),
    ensures
        member_position(roster, who) == Some(i),
{
    let c = choose|c: int| is_first_member(roster, who, c);
    assert(is_first_member(roster, who, c));
    if c < i {
        assert(roster[c].address@ != who);
    } else if c > i {
        assert(roster[i].address@ != who);
    }
}

// ==================== EXECUTABLE HELPERS ====================

fn find_member(roster: &Vec<Member>, who: &Address) -> (r: Option<usize>)
    ensures
        match r {
            Some(i) => member_position(roster@, who@) == Some(i as int),
            None => member_position(roster@, who@) is None,
        },
{
    let mut i: usize = 0;
    while i < roster.len()
        invariant
            0 <= i <= roster@.len(),
            forall|j: int| 0 <= j < i ==> roster@[j].address@ != who@,
        decreases roster.len() - i,
    {
        if roster[i].address.same_as(who) {
            proof {
                lemma_first_member(roster@, who@, i as int);
            }
            return Some(i);
        }
        i += 1;
    }
    None
}

fn paid_this_round(log: &Vec<Contribution>, received: u32, who: &Address) -> (r: bool)
    ensures
        r == paid_in(current_round(log@, received), who@),
{
    let ghost round = current_round(log@, received);
    let len = log.len();
    let start: usize = if (received as usize) <= len {
        len - received as usize
    } else {
        0
    };
    assert(round =~= log@.subrange(start as int, len as int));
    let mut i: usize = start;
    while i < len
        invariant
            start <= i <= len,
            len == log@.len(),
            round == current_round(log@, received),
            round =~= log@.subrange(start as int, len as int),
            forall|j: int| start <= j < i ==> log@[j].member@ != who@,
        decreases len - i,
    {
        if log[i].member.same_as(who) {
            let ghost k = (i - start) as int;
            assert(round[k] == log@[i as int]);
            assert(0 <= k < round.len() && round[k].member@ == who@);
            assert(paid_in(round, who@));
            return true;
        }
        i += 1;
    }
    assert forall|j: int| 0 <= j < round.len() implies round[j].member@ != who@ by {
        assert(round[j] == log@[j + start]);
    }
    false
}

fn copy_roster(roster: &Vec<Member>) -> (r: Vec<Member>)
    ensures
        r@ == roster@,
{
    let mut out: Vec<Member> = Vec::new();
    let mut i: usize = 0;
    while i < roster.len()
        invariant
            0 <= i <= roster@.len(),
            out@ == roster@.subrange(0, i as int),
        decreases roster.len() - i,
    {
        out.push(roster[i].duplicate());
        i += 1;
        assert(out@ =~= roster@.subrange(0, i as int));
    }
    assert(roster@.subrange(0, roster@.len() as int) =~= roster@);
    out
}

// ==================== THE CONTRACT ====================

impl PaluwaganNiJuan {
    /// Empty storage: no groups, no counter.
    pub fn new() -> (s: Self)
        ensures
            s@.next_group_id is None,
            s@.groups == Seq::<PaluwagGroup>::empty(),
            s@.members == Map::<u64, Seq<Member>>::empty(),
            s@.contributions == Map::<(u64, u32), Seq<Contribution>>::empty(),
    {
        let s = PaluwaganNiJuan {
            next_group_id: None,
            groups: Vec::new(),
            members: HashMap::new(),
            contributions: HashMap::new(),
        };
        assert(s@.members =~= Map::<u64, Seq<Member>>::empty());
        assert(s@.contributions =~= Map::<(u64, u32), Seq<Contribution>>::empty());
        s
    }

    fn find_group(&self, group_id: u64) -> (r: Option<usize>)
        ensures
            match r {
                Some(i) => self@.group_index(group_id) == Some(i as int),
                None => self@.group_index(group_id) is None,
            },
    {
        let mut i: usize = 0;
        while i < self.groups.len()
            invariant
                0 <= i <= self.groups@.len(),
                forall|j: int| 0 <= j < i ==> self.groups@[j].group_id != group_id,
            decreases self.groups.len() - i,
        {
            if self.groups[i].group_id == group_id {
                proof {
                    lemma_first_group(self.groups@, group_id, i as int);
                }
                return Some(i);
            }
            i += 1;
        }
        None
    }

    fn roster_of(&self, group_id: u64) -> (r: Option<&Vec<Member>>)
        ensures
            match r {
                Some(v) => self.members@.contains_key(group_id) && v@ == self@.roster(group_id),
                None => !self.members@.contains_key(group_id) && self@.roster(group_id)
                    == Seq::<Member>::empty(),
            },
    {
        self.members.get(&group_id)
    }

    fn log_of(&self, group_id: u64, cycle: u32) -> (r: Option<&Vec<Contribution>>)
        ensures
            match r {
                Some(v) => v@ == self@.log(group_id, cycle),
                None => self@.log(group_id, cycle) == Seq::<Contribution>::empty(),
            },
    {
        match self.contributions.get(&group_id) {
            Some(by_cycle) => by_cycle.get(&cycle),
            None => None,
        }
    }

    /// Creates a group organised by `organizer`, paying in `token_contract`,
    /// for `member_count` members who each pay `contribution_amount` every
    /// round. Returns the group's number.
    pub fn initialize(
        &mut self,
        organizer: Address,
        token_contract: Address,
        member_count: u32,
        contribution_amount: i128,
        frequency_days: u32,
        now: u64,
    ) -> (r: Result<u64, PaluwaganError>)
        ensures
            final(self)@ == initialize_step(
                old(self)@,
                organizer,
                token_contract,
                member_count,
                contribution_amount,
                frequency_days,
                now,
            ).0,
            r == initialize_step(
                old(self)@,
                organizer,
                token_contract,
                member_count,
                contribution_amount,
                frequency_days,
                now,
            ).1,
    {
        if member_count < 2 || member_count > 100 {
            return Err(PaluwaganError::InvalidMemberCount);
        }
        if contribution_amount <= 0 {
            return Err(PaluwaganError::InvalidContributionAmount);
        }
        if frequency_days == 0 {
            return Err(PaluwaganError::InvalidFrequency);
        }
        let group_id: u64 = match self.next_group_id {
            Some(n) => n,
            None => 1,
        };
        if group_id == u64::MAX {
            return Err(PaluwaganError::ArithmeticError);
        }
        let ghost g = new_group(
            group_id,
            organizer,
            token_contract,
            member_count,
            contribution_amount,
            frequency_days,
            now,
        );
        let group = PaluwagGroup {
            group_id,
            organizer,
            token_contract,
            member_count,
            contribution_amount,
            frequency_days,
            status: GroupStatus::Active,
            created_at: now,
            current_cycle: 1,
            current_recipient_index: 0,
            contributions_this_cycle: 0,
        };
        self.groups.push(group);
        self.next_group_id = Some(group_id + 1);
        self.members.insert(group_id, Vec::new());
        assert(self@.members =~= old(self)@.members.insert(group_id, Seq::empty()));
        assert(self@.contributions =~= old(self)@.contributions);
        assert(self@.groups =~= old(self)@.groups.push(g));
        Ok(group_id)
    }

    /// Adds `member_address` to the end of a group's roster.
    pub fn add_member(&mut self, group_id: u64, member_address: Address, now: u64) -> (r: Result<
        bool,
        PaluwaganError,
    >)
        ensures
            final(self)@ == add_member_step(old(self)@, group_id, member_address, now).0,
            r == add_member_step(old(self)@, group_id, member_address, now).1,
    {
        let gi = match self.find_group(group_id) {
            Some(i) => i,
            None => return Err(PaluwaganError::GroupNotFound),
        };
        let member_count = self.groups[gi].member_count;
        let len: usize = match self.roster_of(group_id) {
            Some(m) => {
                if find_member(m, &member_address).is_some() {
                    return Err(PaluwaganError::MemberAlreadyExists);
                }
                m.len()
            },
            None => 0,
        };
        if len >= member_count as usize {
            return Err(PaluwaganError::GroupFull);
        }
        let ghost old_roster = old(self)@.roster(group_id);
        let joined = Member {
            address: member_address,
            index: len as u32,
            join_date: now,
            total_contributed: 0,
            payouts_received: 0,
        };
        let mut roster = match self.members.remove(&group_id) {
            Some(v) => v,
            None => Vec::new(),
        };
        assert(roster@ == old_roster);
        roster.push(joined);
        self.members.insert(group_id, roster);
        assert(self@.members =~= old(self)@.members.insert(group_id, old_roster.push(joined)));
        assert(self@.contributions =~= old(self)@.contributions);
        Ok(true)
    }

    /// Records `member`'s payment of `amount` for the current round and
    /// returns the deposit into escrow that the payment stands for.
    pub fn contribute(&mut self, group_id: u64, member: Address, amount: i128, now: u64) -> (r:
        Result<Deposit, PaluwaganError>)
        ensures
            final(self)@ == contribute_step(old(self)@, group_id, member, amount, now).0,
            r == contribute_step(old(self)@, group_id, member, amount, now).1,
    {
        let gi = match self.find_group(group_id) {
            Some(i) => i,
            None => return Err(PaluwaganError::GroupNotFound),
        };
        let status = self.groups[gi].status;
        let expected = self.groups[gi].contribution_amount;
        let cycle = self.groups[gi].current_cycle;
        let received = self.groups[gi].contributions_this_cycle;
        if status != GroupStatus::Active {
            return Err(PaluwaganError::GroupNotActive);
        }
        if amount != expected {
            return Err(PaluwaganError::AmountMismatch);
        }
        let (mi, total) = match self.roster_of(group_id) {
            Some(m) => match find_member(m, &member) {
                Some(i) => (i, m[i].total_contributed),
                None => return Err(PaluwaganError::MemberNotFound),
            },
            None => return Err(PaluwaganError::MemberNotFound),
        };
        let already = match self.log_of(group_id, cycle) {
            Some(log) => paid_this_round(log, received, &member),
            None => false,
        };
        if already {
            return Err(PaluwaganError::AlreadyContributed);
        }
        let new_total = match total.checked_add(amount) {
            Some(t) => t,
            None => return Err(PaluwaganError::ArithmeticError),
        };
        if received == u32::MAX {
            return Err(PaluwaganError::ArithmeticError);
        }
        let ghost s0 = old(self)@;
        let ghost old_roster = s0.roster(group_id);
        let ghost old_log = s0.log(group_id, cycle);
        let ghost g = s0.groups[gi as int];
        let token = self.groups[gi].token_contract.duplicate();
        let payer = member.duplicate();
        let record = Contribution { member, group_id, cycle, amount, timestamp: now };

        let mut roster = match self.members.remove(&group_id) {
            Some(v) => v,
            None => Vec::new(),
        };
        assert(roster@ == old_roster);
        let updated = Member {
            address: roster[mi].address.duplicate(),
            index: roster[mi].index,
            join_date: roster[mi].join_date,
            total_contributed: new_total,
            payouts_received: roster[mi].payouts_received,
        };
        roster.set(mi, updated);
        self.members.insert(group_id, roster);

        let mut by_cycle = match self.contributions.remove(&group_id) {
            Some(h) => h,
            None => HashMap::new(),
        };
        let mut log = match by_cycle.remove(&cycle) {
            Some(v) => v,
            None => Vec::new(),
        };
        assert(log@ == old_log);
        log.push(record);
        by_cycle.insert(cycle, log);
        self.contributions.insert(group_id, by_cycle);

        let g2 = PaluwagGroup {
            group_id: self.groups[gi].group_id,
            organizer: self.groups[gi].organizer.duplicate(),
            token_contract: self.groups[gi].token_contract.duplicate(),
            member_count: self.groups[gi].member_count,
            contribution_amount: self.groups[gi].contribution_amount,
            frequency_days: self.groups[gi].frequency_days,
            status: self.groups[gi].status,
            created_at: self.groups[gi].created_at,
            current_cycle: cycle,
            current_recipient_index: self.groups[gi].current_recipient_index,
            contributions_this_cycle: received + 1,
        };
        self.groups.set(gi, g2);

        assert(self@.members =~= s0.members.insert(group_id, old_roster.update(mi as int, updated)));
        assert(self@.contributions =~= s0.contributions.insert((group_id, cycle), old_log.push(record)));
        Ok(Deposit { token, from: payer, amount })
    }

    /// Pays the pot of a fully funded round to the member whose turn it is
    /// and passes the turn on.
    pub fn claim_payout(&mut self, group_id: u64) -> (r: Result<Payout, PaluwaganError>)
        ensures
            final(self)@ == claim_payout_step(old(self)@, group_id).0,
            r == claim_payout_step(old(self)@, group_id).1,
    {
        let gi = match self.find_group(group_id) {
            Some(i) => i,
            None => return Err(PaluwaganError::GroupNotFound),
        };
        let member_count = self.groups[gi].member_count;
        let received = self.groups[gi].contributions_this_cycle;
        let idx = self.groups[gi].current_recipient_index;
        let amount = self.groups[gi].contribution_amount;
        let cycle = self.groups[gi].current_cycle;
        if received < member_count {
            return Err(PaluwaganError::CycleNotFunded);
        }
        let payouts = match self.roster_of(group_id) {
            Some(m) => {
                if m.len() == 0 {
                    return Err(PaluwaganError::NoMembers);
                }
                if idx as usize >= m.len() {
                    return Err(PaluwaganError::RecipientMissing);
                }
                m[idx as usize].payouts_received
            },
            None => return Err(PaluwaganError::NoMembers),
        };
        let pot = match amount.checked_mul(member_count as i128) {
            Some(p) => p,
            None => return Err(PaluwaganError::ArithmeticError),
        };
        if payouts == u32::MAX || idx == u32::MAX || member_count == 0 {
            return Err(PaluwaganError::ArithmeticError);
        }
        let next = (idx + 1) % member_count;
        if next == 0 && cycle == u32::MAX {
            return Err(PaluwaganError::ArithmeticError);
        }
        let new_cycle = if next == 0 {
            cycle + 1
        } else {
            cycle
        };
        let ghost s0 = old(self)@;
        let ghost old_roster = s0.roster(group_id);

        let mut roster = match self.members.remove(&group_id) {
            Some(v) => v,
            None => Vec::new(),
        };
        assert(roster@ == old_roster);
        let recipient = roster[idx as usize].address.duplicate();
        let updated = Member {
            address: roster[idx as usize].address.duplicate(),
            index: roster[idx as usize].index,
            join_date: roster[idx as usize].join_date,
            total_contributed: roster[idx as usize].total_contributed,
            payouts_received: payouts + 1,
        };
        roster.set(idx as usize, updated);
        self.members.insert(group_id, roster);

        let token = self.groups[gi].token_contract.duplicate();
        let g2 = PaluwagGroup {
            group_id: self.groups[gi].group_id,
            organizer: self.groups[gi].organizer.duplicate(),
            token_contract: self.groups[gi].token_contract.duplicate(),
            member_count,
            contribution_amount: amount,
            frequency_days: self.groups[gi].frequency_days,
            status: if next == 0 && new_cycle > 1 {
                GroupStatus::Completed
            } else {
                self.groups[gi].status
            },
            created_at: self.groups[gi].created_at,
            current_cycle: new_cycle,
            current_recipient_index: next,
            contributions_this_cycle: 0,
        };
        self.groups.set(gi, g2);

        assert(self@.members =~= s0.members.insert(
            group_id,
            old_roster.update(idx as int, updated),
        ));
        assert(self@.contributions =~= s0.contributions);
        Ok(Payout { token, recipient, amount: pot })
    }

    /// The summary of a group's current round.
    pub fn get_cycle_info(&self, group_id: u64) -> (r: Result<CycleInfo, PaluwaganError>)
        ensures
            match self@.group_index(group_id) {
                None => r == Err::<CycleInfo, PaluwaganError>(PaluwaganError::GroupNotFound),
                Some(gi) => if fits_i128(pot(self@.groups[gi])) {
                    r == Ok::<CycleInfo, PaluwaganError>(cycle_info_of(self@.groups[gi]))
                } else {
                    r == Err::<CycleInfo, PaluwaganError>(PaluwaganError::ArithmeticError)
                },
            },
    {
        let gi = match self.find_group(group_id) {
            Some(i) => i,
            None => return Err(PaluwaganError::GroupNotFound),
        };
        let g = &self.groups[gi];
        let pot = match g.contribution_amount.checked_mul(g.member_count as i128) {
            Some(p) => p,
            None => return Err(PaluwaganError::ArithmeticError),
        };
        Ok(
            CycleInfo {
                group_id: g.group_id,
                cycle_number: g.current_cycle,
                total_pot: pot,
                current_recipient_index: g.current_recipient_index,
                contributions_received: g.contributions_this_cycle,
                expected_contributions: g.member_count,
                is_fully_funded: g.contributions_this_cycle >= g.member_count,
                cycle_started_at: g.created_at,
            },
        )
    }

    /// The registry entry of a group.
    pub fn get_group(&self, group_id: u64) -> (r: Result<PaluwagGroup, PaluwaganError>)
        ensures
            match self@.group_index(group_id) {
                None => r == Err::<PaluwagGroup, PaluwaganError>(PaluwaganError::GroupNotFound),
                Some(gi) => r == Ok::<PaluwagGroup, PaluwaganError>(self@.groups[gi]),
            },
    {
        match self.find_group(group_id) {
            Some(i) => Ok(self.groups[i].duplicate()),
            None => Err(PaluwaganError::GroupNotFound),
        }
    }

    /// The roster of a group, in joining order; empty for an unknown group.
    pub fn get_members(&self, group_id: u64) -> (r: Vec<Member>)
        ensures
            r@ == self@.roster(group_id),
    {
        match self.roster_of(group_id) {
            Some(m) => copy_roster(m),
            None => Vec::new(),
        }
    }
}

} // verus!
