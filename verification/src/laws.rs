use vstd::prelude::*;
use vstd::arithmetic::div_mod::{lemma_mod_self_0, lemma_small_mod};
use vstd::set_lib::{lemma_len_subset, lemma_subset_equality};

use crate::address::Address;
use crate::ledger::{
    add_member_step, claim_overflows, claim_payout_step, contribute_step, current_round, cycle_info_of,
    fits_i128, initialize_step, is_first_group, is_first_member,
    lemma_first_group, member_position, new_group, next_recipient, paid_in, pot, LedgerView,
};
use crate::types::{
    error_message, Contribution, Deposit, GroupStatus, Member, PaluwaganError, PaluwagGroup,
    Payout,
};

verus! {

broadcast use vstd::seq_lib::seq_to_set_is_finite;

// ==================== WELL-FORMED STORAGE ====================

/// How many members have had their turn: all of them once the group is
/// completed, otherwise those before the current recipient.
pub open spec fn turns_taken(g: PaluwagGroup) -> int {
    if g.status == GroupStatus::Completed {
        g.member_count as int
    } else {
        g.current_recipient_index as int
    }
}

/// Whether `who` is on the roster.
pub open spec fn on_roster(roster: Seq<Member>, who: Seq<char>) -> bool {
    exists|j: int| 0 <= j < roster.len() && roster[j].address@ == who
}

/// What a group's entries in storage look like in every state the
/// operations can reach.
pub open spec fn group_wf(s: LedgerView, g: PaluwagGroup) -> bool {
    let m = s.roster(g.group_id);
    let k = g.contributions_this_cycle;
    let idx = g.current_recipient_index;
    let log = s.log(g.group_id, g.current_cycle);
    let round = current_round(log, k);
    let done = turns_taken(g);
    &&& 2 <= g.member_count <= 100
    &&& g.contribution_amount > 0
    &&& g.frequency_days >= 1
    &&& idx < g.member_count
    &&& match g.status {
        GroupStatus::Active => g.current_cycle == 1,
        GroupStatus::Completed => g.current_cycle == 2 && idx == 0 && k == 0,
        GroupStatus::Paused => false,
    }
    &&& m.len() <= g.member_count
    &&& done > 0 ==> m.len() == g.member_count && fits_i128(pot(g))
    &&& k <= log.len()
    &&& k <= m.len()
    // the roster is in joining order, one entry per address
    &&& forall|j: int| 0 <= j < m.len() ==> #[trigger] m[j].index == j
    &&& forall|i: int, j: int|
        0 <= i < j < m.len() ==> #[trigger] m[i].address@ != #[trigger] m[j].address@
    // in the current round every member paid at most once, and only members paid
    &&& forall|i: int, j: int|
        0 <= i < j < round.len() ==> #[trigger] round[i].member@ != #[trigger] round[j].member@
    &&& forall|i: int| 0 <= i < round.len() ==> on_roster(m, #[trigger] round[i].member@)
    // the members before the current turn were paid once, the others not yet
    &&& forall|j: int|
        0 <= j < m.len() ==> #[trigger] m[j].payouts_received == (if j < done {
            1u32
        } else {
            0u32
        })
    // every member paid the amount once in every round so far
    &&& forall|j: int|
        0 <= j < m.len() ==> #[trigger] m[j].total_contributed == g.contribution_amount * (done + (
        if paid_in(round, m[j].address@) {
            1int
        } else {
            0int
        }))
}

/// The storage invariant: groups are numbered from 1 below the counter, no
/// two alike, and every group is well formed.
pub open spec fn ledger_wf(s: LedgerView) -> bool {
    &&& s.next_id() >= 1
    &&& forall|i: int| 0 <= i < s.groups.len() ==> 1 <= #[trigger] s.groups[i].group_id < s.next_id()
    &&& forall|i: int, j: int|
        0 <= i < j < s.groups.len() ==> #[trigger] s.groups[i].group_id
            != #[trigger] s.groups[j].group_id
    &&& forall|i: int| 0 <= i < s.groups.len() ==> group_wf(s, #[trigger] s.groups[i])
}

// ==================== HELPERS ====================

proof fn lemma_group_wf_frame(s1: LedgerView, s2: LedgerView, g: PaluwagGroup)
    requires
        group_wf(s1, g),
        s2.roster(g.group_id) == s1.roster(g.group_id),
        s2.log(g.group_id, g.current_cycle) == s1.log(g.group_id, g.current_cycle),
    ensures
        group_wf(s2, g),
{
}

proof fn lemma_paid_in_push(round: Seq<Contribution>, c: Contribution, who: Seq<char>)
    ensures
        paid_in(round.push(c), who) == (paid_in(round, who) || c.member@ == who),
{
    let r2 = round.push(c);
    if paid_in(round, who) {
        let i = choose|i: int| 0 <= i < round.len() && round[i].member@ == who;
        assert(r2[i] == round[i]);
    }
    if c.member@ == who {
        assert(r2[round.len() as int] == c);
    }
    if paid_in(r2, who) {
        let i = choose|i: int| 0 <= i < r2.len() && r2[i].member@ == who;
        if i < round.len() {
            assert(r2[i] == round[i]);
        }
    }
}

proof fn lemma_round_push(log: Seq<Contribution>, k: u32, c: Contribution)
    requires
        k <= log.len(),
        k < u32::MAX,
    ensures
        current_round(log.push(c), (k + 1) as u32) =~= current_round(log, k).push(c),
{
}

/// The payers of a round, in order.
pub open spec fn payers(round: Seq<Contribution>) -> Seq<Seq<char>> {
    Seq::new(round.len(), |i: int| round[i].member@)
}

/// The addresses of a roster, in order.
pub open spec fn addresses(m: Seq<Member>) -> Seq<Seq<char>> {
    Seq::new(m.len(), |i: int| m[i].address@)
}

/// A round with no payer twice lists each payer once, and its payer set
/// has the round's length.
proof fn lemma_payers_distinct(round: Seq<Contribution>)
    requires
        forall|i: int, j: int|
            0 <= i < j < round.len() ==> #[trigger] round[i].member@ != #[trigger] round[j].member@,
    ensures
        payers(round).no_duplicates(),
        payers(round).to_set().len() == round.len(),
{
    let a = payers(round);
    assert forall|i: int, j: int| 0 <= i < a.len() && 0 <= j < a.len() && i != j implies a[i]
        != a[j] by {
        if i < j {
            assert(round[i].member@ != round[j].member@);
        } else {
            assert(round[j].member@ != round[i].member@);
        }
    }
    a.unique_seq_to_set();
}

/// A roster with no address twice lists each address once, and its
/// address set has the roster's length.
proof fn lemma_addresses_distinct(m: Seq<Member>)
    requires
        forall|i: int, j: int|
            0 <= i < j < m.len() ==> #[trigger] m[i].address@ != #[trigger] m[j].address@,
    ensures
        addresses(m).no_duplicates(),
        addresses(m).to_set().len() == m.len(),
{
    let b = addresses(m);
    assert forall|i: int, j: int| 0 <= i < b.len() && 0 <= j < b.len() && i != j implies b[i]
        != b[j] by {
        if i < j {
            assert(m[i].address@ != m[j].address@);
        } else {
            assert(m[j].address@ != m[i].address@);
        }
    }
    b.unique_seq_to_set();
}

/// A round whose payers are distinct members of a roster without repeated
/// addresses has at most as many records as the roster has members; with
/// as many, every member paid in it.
proof fn lemma_round_within_roster(round: Seq<Contribution>, m: Seq<Member>)
    requires
        forall|i: int, j: int|
            0 <= i < j < round.len() ==> #[trigger] round[i].member@ != #[trigger] round[j].member@,
        forall|i: int| 0 <= i < round.len() ==> on_roster(m, #[trigger] round[i].member@),
        forall|i: int, j: int|
            0 <= i < j < m.len() ==> #[trigger] m[i].address@ != #[trigger] m[j].address@,
    ensures
        round.len() <= m.len(),
        round.len() == m.len() ==> forall|j: int|
            0 <= j < m.len() ==> paid_in(round, #[trigger] m[j].address@),
{
    let a = payers(round);
    let b = addresses(m);
    lemma_payers_distinct(round);
    lemma_addresses_distinct(m);
    assert(a.to_set().subset_of(b.to_set())) by {
        assert forall|x: Seq<char>| a.to_set().contains(x) implies b.to_set().contains(x) by {
            assert(a.contains(x));
            let i = choose|i: int| 0 <= i < a.len() && a[i] == x;
            assert(on_roster(m, round[i].member@));
            let j = choose|j: int| 0 <= j < m.len() && m[j].address@ == round[i].member@;
            assert(b[j] == x);
        }
    }
    lemma_len_subset(a.to_set(), b.to_set());
    if round.len() == m.len() {
        lemma_subset_equality(a.to_set(), b.to_set());
        assert forall|j: int| 0 <= j < m.len() implies paid_in(round, #[trigger] m[j].address@) by {
            assert(b[j] == m[j].address@);
            assert(b.to_set().contains(b[j]));
            assert(a.to_set().contains(b[j]));
            let i = choose|i: int| 0 <= i < a.len() && a[i] == b[j];
            assert(round[i].member@ == m[j].address@);
        }
    }
}


proof fn lemma_first_occurrence(m: Seq<Member>, who: Seq<char>, j: int)
    requires
        0 <= j < m.len(),
        m[j].address@ == who,
    ensures
        member_position(m, who) is Some,
    decreases j,
{
    if exists|k: int| 0 <= k < j && m[k].address@ == who {
        let k = choose|k: int| 0 <= k < j && m[k].address@ == who;
        lemma_first_occurrence(m, who, k);
    } else {
        assert(is_first_member(m, who, j));
    }
}

/// On a roster without repeated addresses, a member's position is where
/// its address stands.
proof fn lemma_position_of_distinct(m: Seq<Member>, who: Seq<char>, j: int)
    requires
        0 <= j < m.len(),
        m[j].address@ == who,
        forall|a: int, b: int| 0 <= a < b < m.len() ==> #[trigger] m[a].address@ != #[trigger] m[b].address@,
    ensures
        member_position(m, who) == Some(j),
{
    lemma_first_occurrence(m, who, j);
    let c = choose|c: int| is_first_member(m, who, c);
    assert(is_first_member(m, who, c));
    if c < j {
        assert(m[c].address@ != m[j].address@);
    } else if c > j {
        assert(m[j].address@ != m[c].address@);
    }
}

/// Other groups' entries are untouched by an operation on one group.
proof fn lemma_others_unchanged(s: LedgerView, s2: LedgerView, gi: int)
    requires
        ledger_wf(s),
        0 <= gi < s.groups.len(),
        s2.groups.len() == s.groups.len(),
        s2.next_group_id == s.next_group_id,
        forall|i: int| 0 <= i < s.groups.len() && i != gi ==> s2.groups[i] == s.groups[i],
        forall|id: u64| id != s.groups[gi].group_id ==> s2.roster(id) == s.roster(id),
        forall|id: u64, c: u32| id != s.groups[gi].group_id ==> s2.log(id, c) == s.log(id, c),
        s2.groups[gi].group_id == s.groups[gi].group_id,
        group_wf(s2, s2.groups[gi]),
    ensures
        ledger_wf(s2),
{
    assert forall|i: int| 0 <= i < s2.groups.len() implies group_wf(s2, #[trigger] s2.groups[i]) by {
        if i != gi {
            let g = s.groups[i];
            if i < gi {
                assert(s.groups[i].group_id != s.groups[gi].group_id);
            } else {
                assert(s.groups[gi].group_id != s.groups[i].group_id);
            }
            assert(group_wf(s, g));
            lemma_group_wf_frame(s, s2, g);
        }
    }
    assert forall|i: int| 0 <= i < s2.groups.len() implies 1 <= #[trigger] s2.groups[i].group_id
        < s2.next_id() by {
        if i != gi {
            assert(s2.groups[i] == s.groups[i]);
        }
        assert(1 <= s.groups[i].group_id < s.next_id());
    }
    assert forall|i: int, j: int| 0 <= i < j < s2.groups.len() implies #[trigger] s2.groups[i].group_id
        != #[trigger] s2.groups[j].group_id by {
        if i != gi {
            assert(s2.groups[i] == s.groups[i]);
        }
        if j != gi {
            assert(s2.groups[j] == s.groups[j]);
        }
        assert(s.groups[i].group_id != s.groups[j].group_id);
    }
}

// ==================== LAWS: THE INVARIANT IS KEPT ====================

/// Empty storage is well formed.
pub proof fn empty_ledger_is_wf(s: LedgerView)
    requires
        s.next_group_id is None,
        s.groups.len() == 0,
    ensures
        ledger_wf(s),
{
}

/// Creating a group keeps the storage well formed.
pub proof fn initialize_keeps_ledger_wf(
    s: LedgerView,
    organizer: Address,
    token_contract: Address,
    member_count: u32,
    contribution_amount: i128,
    frequency_days: u32,
    now: u64,
)
    requires
        ledger_wf(s),
    ensures
        ledger_wf(
            initialize_step(
                s,
                organizer,
                token_contract,
                member_count,
                contribution_amount,
                frequency_days,
                now,
            ).0,
        ),
{
    let (s2, r) = initialize_step(
        s,
        organizer,
        token_contract,
        member_count,
        contribution_amount,
        frequency_days,
        now,
    );
    if r is Ok {
        let id = s.next_id();
        let g = new_group(
            id,
            organizer,
            token_contract,
            member_count,
            contribution_amount,
            frequency_days,
            now,
        );
        assert(s2.groups == s.groups.push(g));
        assert forall|i: int| 0 <= i < s2.groups.len() implies group_wf(
            s2,
            #[trigger] s2.groups[i],
        ) by {
            if i < s.groups.len() {
                assert(s2.groups[i] == s.groups[i]);
                assert(s.groups[i].group_id < id);
                assert(group_wf(s, s.groups[i]));
                lemma_group_wf_frame(s, s2, s.groups[i]);
            } else {
                assert(s2.groups[i] == g);
                assert(s2.roster(id) =~= Seq::<Member>::empty());
                assert(current_round(s2.log(id, 1), 0) =~= Seq::<Contribution>::empty());
            }
        }
        assert forall|i: int, j: int| 0 <= i < j < s2.groups.len() implies #[trigger] s2.groups[i].group_id
            != #[trigger] s2.groups[j].group_id by {
            if j < s.groups.len() {
                assert(s.groups[i].group_id != s.groups[j].group_id);
            } else {
                assert(s.groups[i].group_id < id);
            }
        }
        assert forall|i: int| 0 <= i < s2.groups.len() implies 1 <= #[trigger] s2.groups[i].group_id
            < s2.next_id() by {
            if i < s.groups.len() {
                assert(1 <= s.groups[i].group_id < s.next_id());
            }
        }
    }
}

/// Adding a member keeps the storage well formed.
pub proof fn add_member_keeps_ledger_wf(s: LedgerView, group_id: u64, who: Address, now: u64)
    requires
        ledger_wf(s),
    ensures
        ledger_wf(add_member_step(s, group_id, who, now).0),
{
    let (s2, r) = add_member_step(s, group_id, who, now);
    if r is Ok {
        let gi = s.group_index(group_id)->0;
        assert(is_first_group(s.groups, group_id, gi));
        let g = s.groups[gi];
        assert(group_wf(s, g));
        let m = s.roster(group_id);
        let joined = Member {
            address: who,
            index: m.len() as u32,
            join_date: now,
            total_contributed: 0,
            payouts_received: 0,
        };
        let m2 = m.push(joined);
        assert(s2.roster(group_id) == m2);
        assert(!on_roster(m, who@)) by {
            if on_roster(m, who@) {
                let j = choose|j: int| 0 <= j < m.len() && m[j].address@ == who@;
                lemma_first_occurrence(m, who@, j);
            }
        }
        let round = current_round(s.log(group_id, g.current_cycle), g.contributions_this_cycle);
        assert(!paid_in(round, who@)) by {
            if paid_in(round, who@) {
                let i = choose|i: int| 0 <= i < round.len() && round[i].member@ == who@;
                assert(on_roster(m, round[i].member@));
            }
        }
        assert forall|i: int| 0 <= i < round.len() implies on_roster(m2, #[trigger] round[i].member@) by {
            assert(on_roster(m, round[i].member@));
            let j = choose|j: int| 0 <= j < m.len() && m[j].address@ == round[i].member@;
            assert(m2[j] == m[j]);
        }
        assert forall|a: int, b: int| 0 <= a < b < m2.len() implies #[trigger] m2[a].address@
            != #[trigger] m2[b].address@ by {
            if b < m.len() {
                assert(m[a].address@ != m[b].address@);
            } else {
                assert(m2[a] == m[a]);
            }
        }
        assert forall|j: int| 0 <= j < m2.len() implies #[trigger] m2[j].total_contributed
            == g.contribution_amount * (turns_taken(g) + (if paid_in(round, m2[j].address@) {
            1int
        } else {
            0int
        })) by {
            if j < m.len() {
                assert(m2[j] == m[j]);
            } else {
                assert(m2[j] == joined);
                assert(turns_taken(g) == 0);
                assert(g.contribution_amount * (0int + 0int) == 0);
            }
        }
        assert(group_wf(s2, g));
        lemma_others_unchanged(s, s2, gi);
    }
}

/// Paying into a round keeps the storage well formed.
pub proof fn contribute_keeps_ledger_wf(
    s: LedgerView,
    group_id: u64,
    who: Address,
    amount: i128,
    now: u64,
)
    requires
        ledger_wf(s),
    ensures
        ledger_wf(contribute_step(s, group_id, who, amount, now).0),
{
    let (s2, r) = contribute_step(s, group_id, who, amount, now);
    if r is Ok {
        let gi = s.group_index(group_id)->0;
        assert(is_first_group(s.groups, group_id, gi));
        let g = s.groups[gi];
        assert(group_wf(s, g));
        let m = s.roster(group_id);
        let mi = member_position(m, who@)->0;
        assert(is_first_member(m, who@, mi));
        let cycle = g.current_cycle;
        let k = g.contributions_this_cycle;
        let log = s.log(group_id, cycle);
        let round = current_round(log, k);
        let done = turns_taken(g);
        let record = Contribution { member: who, group_id, cycle, amount, timestamp: now };
        let payer = Member {
            total_contributed: (m[mi].total_contributed + amount) as i128,
            ..m[mi]
        };
        let m2 = m.update(mi, payer);
        let g2 = PaluwagGroup { contributions_this_cycle: (k + 1) as u32, ..g };
        assert(s2.groups[gi] == g2);
        assert(s2.roster(group_id) == m2);
        assert(s2.log(group_id, cycle) == log.push(record));
        lemma_round_push(log, k, record);
        let round2 = round.push(record);
        assert(current_round(s2.log(group_id, g2.current_cycle), g2.contributions_this_cycle)
            == round2);
        assert(turns_taken(g2) == done);
        assert(!paid_in(round, who@));
        assert forall|a: int, b: int| 0 <= a < b < round2.len() implies #[trigger] round2[a].member@
            != #[trigger] round2[b].member@ by {
            assert(round2[a] == round[a]);
            if b < round.len() {
                assert(round2[b] == round[b]);
                assert(round[a].member@ != round[b].member@);
            } else {
                assert(round2[b] == record);
            }
        }
        assert forall|i: int| 0 <= i < round2.len() implies on_roster(m2, #[trigger] round2[i].member@) by {
            if i < round.len() {
                assert(round2[i] == round[i]);
                assert(on_roster(m, round[i].member@));
                let j = choose|j: int| 0 <= j < m.len() && m[j].address@ == round[i].member@;
                assert(m2[j].address@ == m[j].address@);
            } else {
                assert(round2[i] == record);
                assert(m2[mi].address@ == who@);
            }
        }
        assert forall|a: int, b: int| 0 <= a < b < m2.len() implies #[trigger] m2[a].address@
            != #[trigger] m2[b].address@ by {
            assert(m2[a].address@ == m[a].address@);
            assert(m2[b].address@ == m[b].address@);
            assert(m[a].address@ != m[b].address@);
        }
        lemma_round_within_roster(round2, m2);
        assert forall|j: int| 0 <= j < m2.len() implies #[trigger] m2[j].total_contributed
            == g2.contribution_amount * (turns_taken(g2) + (if paid_in(round2, m2[j].address@) {
            1int
        } else {
            0int
        })) by {
            lemma_paid_in_push(round, record, m2[j].address@);
            assert(m[j].total_contributed == g.contribution_amount * (done + (if paid_in(
                round,
                m[j].address@,
            ) {
                1int
            } else {
                0int
            })));
            if j == mi {
                let a = g.contribution_amount as int;
                assert(a * (done + 1) == a * (done + 0) + a) by (nonlinear_arith);
            } else {
                if j < mi {
                    assert(m[j].address@ != m[mi].address@);
                } else {
                    assert(m[mi].address@ != m[j].address@);
                }
                assert(m2[j] == m[j]);
            }
        }
        assert(group_wf(s2, g2));
        lemma_others_unchanged(s, s2, gi);
    }
}

/// The turn after `idx` in a group of `count`.
proof fn lemma_next_recipient(idx: u32, count: u32)
    requires
        idx < count,
    ensures
        idx + 1 < count ==> next_recipient(idx, count) == idx + 1,
        idx + 1 == count ==> next_recipient(idx, count) == 0,
{
    if idx + 1 < count {
        lemma_small_mod((idx + 1) as nat, count as nat);
    } else {
        lemma_mod_self_0(count as int);
    }
}

/// Paying out a round keeps the storage well formed.
pub proof fn claim_payout_keeps_ledger_wf(s: LedgerView, group_id: u64)
    requires
        ledger_wf(s),
    ensures
        ledger_wf(claim_payout_step(s, group_id).0),
{
    let (s2, r) = claim_payout_step(s, group_id);
    if r is Ok {
        let gi = s.group_index(group_id)->0;
        assert(is_first_group(s.groups, group_id, gi));
        let g = s.groups[gi];
        assert(group_wf(s, g));
        let m = s.roster(group_id);
        let mc = g.member_count;
        let idx = g.current_recipient_index;
        let k = g.contributions_this_cycle;
        let log = s.log(group_id, g.current_cycle);
        let round = current_round(log, k);
        assert(g.status == GroupStatus::Active);
        assert(k == mc && m.len() == mc);
        assert(round.len() == k);
        lemma_round_within_roster(round, m);
        lemma_next_recipient(idx, mc);
        assert(!claim_overflows(g, m[idx as int]));
        let next = next_recipient(idx, mc);
        let cycle = if next == 0 {
            (g.current_cycle + 1) as u32
        } else {
            g.current_cycle
        };
        let g2 = PaluwagGroup {
            current_recipient_index: next,
            current_cycle: cycle,
            contributions_this_cycle: 0,
            status: if next == 0 && cycle > 1 {
                GroupStatus::Completed
            } else {
                g.status
            },
            ..g
        };
        let paid = Member { payouts_received: (m[idx as int].payouts_received + 1) as u32, ..m[idx as int] };
        let m2 = m.update(idx as int, paid);
        assert(s2.groups[gi] == g2);
        assert(s2.roster(group_id) == m2);
        assert(turns_taken(g2) == idx + 1);
        let round2 = current_round(s2.log(group_id, cycle), 0);
        assert(round2 =~= Seq::<Contribution>::empty());
        assert forall|a: int, b: int| 0 <= a < b < m2.len() implies #[trigger] m2[a].address@
            != #[trigger] m2[b].address@ by {
            assert(m2[a].address@ == m[a].address@);
            assert(m2[b].address@ == m[b].address@);
            assert(m[a].address@ != m[b].address@);
        }
        assert forall|j: int| 0 <= j < m2.len() implies #[trigger] m2[j].payouts_received == (if j
            < turns_taken(g2) {
            1u32
        } else {
            0u32
        }) by {
            assert(m[j].payouts_received == (if j < idx {
                1u32
            } else {
                0u32
            }));
        }
        assert forall|j: int| 0 <= j < m2.len() implies #[trigger] m2[j].total_contributed
            == g2.contribution_amount * (turns_taken(g2) + (if paid_in(round2, m2[j].address@) {
            1int
        } else {
            0int
        })) by {
            assert(paid_in(round, m[j].address@));
            assert(m[j].total_contributed == g.contribution_amount * (idx + 1int));
            assert(m2[j].total_contributed == m[j].total_contributed);
            assert(!paid_in(round2, m2[j].address@));
        }
        assert(group_wf(s2, g2));
        lemma_others_unchanged(s, s2, gi);
    }
}

// ==================== LAWS: WHAT THE OPERATIONS PROMISE ====================

/// A created group takes the counter's number, the counter moves one on,
/// and the group reads back as created: active, in cycle 1, member 0 to
/// receive first, nothing received, and an empty roster.
pub proof fn created_group_reads_back(
    s: LedgerView,
    organizer: Address,
    token_contract: Address,
    member_count: u32,
    contribution_amount: i128,
    frequency_days: u32,
    now: u64,
)
    requires
        ledger_wf(s),
        2 <= member_count <= 100,
        contribution_amount > 0,
        frequency_days >= 1,
        s.next_id() < u64::MAX,
    ensures
        ({
            let (s2, r) = initialize_step(
                s,
                organizer,
                token_contract,
                member_count,
                contribution_amount,
                frequency_days,
                now,
            );
            let id = s.next_id();
            let g = s2.groups[s.groups.len() as int];
            &&& r == Ok::<u64, PaluwaganError>(id)
            &&& s2.next_id() == id + 1
            &&& s2.group_index(id) == Some(s.groups.len() as int)
            &&& s2.groups.len() == s.groups.len() + 1
            &&& forall|i: int| 0 <= i < s.groups.len() ==> s2.groups[i] == s.groups[i]
            &&& g.group_id == id
            &&& g.organizer == organizer
            &&& g.token_contract == token_contract
            &&& g.member_count == member_count
            &&& g.contribution_amount == contribution_amount
            &&& g.frequency_days == frequency_days
            &&& g.status == GroupStatus::Active
            &&& g.created_at == now
            &&& g.current_cycle == 1
            &&& g.current_recipient_index == 0
            &&& g.contributions_this_cycle == 0
            &&& s2.roster(id).len() == 0
            &&& forall|other: u64| other != id ==> #[trigger] s2.roster(other) == s.roster(other)
            &&& s2.contributions == s.contributions
        }),
{
    let (s2, r) = initialize_step(
        s,
        organizer,
        token_contract,
        member_count,
        contribution_amount,
        frequency_days,
        now,
    );
    let id = s.next_id();
    let n = s.groups.len() as int;
    assert(is_first_group(s2.groups, id, n)) by {
        assert forall|j: int| 0 <= j < n implies s2.groups[j].group_id != id by {
            assert(s2.groups[j] == s.groups[j]);
            assert(s.groups[j].group_id < s.next_id());
        }
    }
    lemma_first_group(s2.groups, id, n);
}

/// A pot is paid out only when the roster is full and every member on it
/// has paid into the current round.
pub proof fn payout_only_after_everyone_paid(s: LedgerView, group_id: u64)
    requires
        ledger_wf(s),
        claim_payout_step(s, group_id).1 is Ok,
    ensures
        ({
            let g = s.groups[s.group_index(group_id)->0];
            let m = s.roster(group_id);
            let round = current_round(
                s.log(group_id, g.current_cycle),
                g.contributions_this_cycle,
            );
            &&& m.len() == g.member_count
            &&& forall|j: int| 0 <= j < m.len() ==> paid_in(round, #[trigger] m[j].address@)
        }),
{
    let gi = s.group_index(group_id)->0;
    assert(is_first_group(s.groups, group_id, gi));
    let g = s.groups[gi];
    assert(group_wf(s, g));
    let m = s.roster(group_id);
    let round = current_round(s.log(group_id, g.current_cycle), g.contributions_this_cycle);
    assert(round.len() == g.contributions_this_cycle);
    lemma_round_within_roster(round, m);
}

/// The pot, every member's contribution, goes to the member whose turn it
/// is; the turn passes to the next member in joining order, and after the
/// last member the group is completed in cycle 2 with the turn back at 0.
pub proof fn payout_rotates_turn(s: LedgerView, group_id: u64)
    requires
        ledger_wf(s),
        claim_payout_step(s, group_id).1 is Ok,
    ensures
        ({
            let gi = s.group_index(group_id)->0;
            let g = s.groups[gi];
            let m = s.roster(group_id);
            let (s2, r) = claim_payout_step(s, group_id);
            let p = r->Ok_0;
            let g2 = s2.groups[gi];
            let idx = g.current_recipient_index;
            &&& p.recipient == m[idx as int].address
            &&& p.amount == g.contribution_amount * g.member_count
            &&& p.token == g.token_contract
            &&& s2.roster(group_id).len() == m.len()
            &&& s2.roster(group_id)[idx as int].payouts_received == 1
            &&& s2.roster(group_id)[idx as int].address == m[idx as int].address
            &&& s2.roster(group_id)[idx as int].total_contributed == m[idx as int].total_contributed
            &&& forall|j: int|
                0 <= j < m.len() && j != idx ==> #[trigger] s2.roster(group_id)[j] == m[j]
            &&& g2.group_id == g.group_id
            &&& g2.member_count == g.member_count
            &&& g2.contribution_amount == g.contribution_amount
            &&& g2.token_contract == g.token_contract
            &&& g2.organizer == g.organizer
            &&& g2.frequency_days == g.frequency_days
            &&& g2.created_at == g.created_at
            &&& s2.groups.len() == s.groups.len()
            &&& forall|i: int| 0 <= i < s.groups.len() && i != gi ==> #[trigger] s2.groups[i]
                == s.groups[i]
            &&& s2.next_group_id == s.next_group_id
            &&& s2.contributions == s.contributions
            &&& forall|id: u64| id != group_id ==> #[trigger] s2.roster(id) == s.roster(id)
            &&& g2.contributions_this_cycle == 0
            &&& idx + 1 < g.member_count ==> {
                &&& g2.current_recipient_index == idx + 1
                &&& g2.current_cycle == 1
                &&& g2.status == GroupStatus::Active
            }
            &&& idx + 1 == g.member_count ==> {
                &&& g2.current_recipient_index == 0
                &&& g2.current_cycle == 2
                &&& g2.status == GroupStatus::Completed
            }
        }),
{
    let gi = s.group_index(group_id)->0;
    assert(is_first_group(s.groups, group_id, gi));
    let g = s.groups[gi];
    assert(group_wf(s, g));
    lemma_next_recipient(g.current_recipient_index, g.member_count);
    assert(g.status == GroupStatus::Active);
}

/// A group is created exactly when its member count is between 2 and 100,
/// its amount is positive, its frequency at least a day and the counter
/// can still move on; a refused creation changes nothing.
pub proof fn group_created_exactly_when_valid(
    s: LedgerView,
    organizer: Address,
    token_contract: Address,
    member_count: u32,
    contribution_amount: i128,
    frequency_days: u32,
    now: u64,
)
    ensures
        ({
            let (s2, r) = initialize_step(
                s,
                organizer,
                token_contract,
                member_count,
                contribution_amount,
                frequency_days,
                now,
            );
            let valid = 2 <= member_count <= 100 && contribution_amount > 0 && frequency_days >= 1
                && s.next_id() < u64::MAX;
            &&& (r is Ok) == valid
            &&& valid ==> r == Ok::<u64, PaluwaganError>(s.next_id())
            &&& !valid ==> s2 == s
            &&& (member_count < 2 || member_count > 100) ==> r == Err::<u64, PaluwaganError>(
                PaluwaganError::InvalidMemberCount,
            )
            &&& (2 <= member_count <= 100 && contribution_amount <= 0) ==> r == Err::<
                u64,
                PaluwaganError,
            >(PaluwaganError::InvalidContributionAmount)
            &&& (2 <= member_count <= 100 && contribution_amount > 0 && frequency_days == 0) ==> r
                == Err::<u64, PaluwaganError>(PaluwaganError::InvalidFrequency)
        }),
{
}

/// A member joins exactly when the group exists, the address is not on its
/// roster and the roster is below the member count, whatever else holds of
/// the group (its organiser, the payments of the round). The newcomer is
/// appended at the end of the roster with nothing paid or received; the
/// rest of the storage is untouched. A refused joining changes nothing.
pub proof fn member_joins_exactly_when_room(s: LedgerView, group_id: u64, who: Address, now: u64)
    requires
        s.group_index(group_id) is Some,
    ensures
        ({
            let g = s.groups[s.group_index(group_id)->0];
            let m = s.roster(group_id);
            let (s2, r) = add_member_step(s, group_id, who, now);
            let room = !on_roster(m, who@) && m.len() < g.member_count;
            &&& (r == Ok::<bool, PaluwaganError>(true)) == room
            &&& (r is Ok) == room
            &&& room ==> {
                let m2 = s2.roster(group_id);
                &&& m2.len() == m.len() + 1
                &&& forall|j: int| 0 <= j < m.len() ==> #[trigger] m2[j] == m[j]
                &&& m2[m.len() as int].address == who
                &&& m2[m.len() as int].index == m.len()
                &&& m2[m.len() as int].join_date == now
                &&& m2[m.len() as int].total_contributed == 0
                &&& m2[m.len() as int].payouts_received == 0
                &&& s2.groups == s.groups
                &&& s2.next_group_id == s.next_group_id
                &&& s2.contributions == s.contributions
                &&& forall|id: u64| id != group_id ==> #[trigger] s2.roster(id) == s.roster(id)
            }
            &&& !room ==> s2 == s
            &&& on_roster(m, who@) ==> r == Err::<bool, PaluwaganError>(
                PaluwaganError::MemberAlreadyExists,
            )
            &&& (!on_roster(m, who@) && m.len() >= g.member_count) ==> r == Err::<
                bool,
                PaluwaganError,
            >(PaluwaganError::GroupFull)
        }),
{
    let m = s.roster(group_id);
    if on_roster(m, who@) {
        let j = choose|j: int| 0 <= j < m.len() && m[j].address@ == who@;
        lemma_first_occurrence(m, who@, j);
    }
    if member_position(m, who@) is Some {
        let c = member_position(m, who@)->0;
        assert(is_first_member(m, who@, c));
    }
}

/// On well-formed storage a payment is accepted exactly when the group is
/// active, the amount is the group's, the payer is on the roster and has
/// not paid in the current round, whatever the roster's size. An accepted
/// payment hands back a deposit of that amount from the payer in the
/// group's token, counts one more payment for the round, adds the amount
/// to the payer's total alone, and appends one record to the cycle's log.
/// A refused payment changes nothing.
pub proof fn payment_accepted_exactly_when_due(
    s: LedgerView,
    group_id: u64,
    who: Address,
    amount: i128,
    now: u64,
)
    requires
        ledger_wf(s),
        s.group_index(group_id) is Some,
    ensures
        ({
            let gi = s.group_index(group_id)->0;
            let g = s.groups[gi];
            let m = s.roster(group_id);
            let round = current_round(
                s.log(group_id, g.current_cycle),
                g.contributions_this_cycle,
            );
            let (s2, r) = contribute_step(s, group_id, who, amount, now);
            let due = g.status == GroupStatus::Active && amount == g.contribution_amount
                && on_roster(m, who@) && !paid_in(round, who@);
            &&& (r is Ok) == due
            &&& due ==> {
                let d = r->Ok_0;
                let m2 = s2.roster(group_id);
                let g2 = s2.groups[gi];
                &&& d.amount == amount
                &&& d.from == who
                &&& d.token == g.token_contract
                &&& g2.contributions_this_cycle == g.contributions_this_cycle + 1
                &&& g2.current_recipient_index == g.current_recipient_index
                &&& g2.current_cycle == g.current_cycle
                &&& g2.status == g.status
                &&& g2.group_id == g.group_id
                &&& g2.organizer == g.organizer
                &&& g2.token_contract == g.token_contract
                &&& g2.member_count == g.member_count
                &&& g2.contribution_amount == g.contribution_amount
                &&& g2.frequency_days == g.frequency_days
                &&& g2.created_at == g.created_at
                &&& s2.groups.len() == s.groups.len()
                &&& forall|i: int| 0 <= i < s.groups.len() && i != gi ==> #[trigger] s2.groups[i]
                    == s.groups[i]
                &&& s2.next_group_id == s.next_group_id
                &&& forall|id: u64| id != group_id ==> #[trigger] s2.roster(id) == s.roster(id)
                &&& forall|id: u64, c: u32|
                    (id, c) != (group_id, g.current_cycle) ==> #[trigger] s2.log(id, c) == s.log(
                        id,
                        c,
                    )
                &&& m2.len() == m.len()
                &&& forall|j: int|
                    0 <= j < m.len() ==> (#[trigger] m2[j]).address == m[j].address
                        && m2[j].payouts_received == m[j].payouts_received
                        && m2[j].total_contributed == m[j].total_contributed + (if m[j].address@
                        == who@ {
                        amount as int
                    } else {
                        0int
                    })
                &&& s2.log(group_id, g.current_cycle) == s.log(group_id, g.current_cycle).push(
                    Contribution { member: who, group_id, cycle: g.current_cycle, amount, timestamp: now },
                )
            }
            &&& !due ==> s2 == s
            &&& g.status != GroupStatus::Active ==> r == Err::<Deposit, PaluwaganError>(
                PaluwaganError::GroupNotActive,
            )
            &&& (g.status == GroupStatus::Active && amount != g.contribution_amount) ==> r == Err::<
                Deposit,
                PaluwaganError,
            >(PaluwaganError::AmountMismatch)
            &&& (g.status == GroupStatus::Active && amount == g.contribution_amount && !on_roster(
                m,
                who@,
            )) ==> r == Err::<Deposit, PaluwaganError>(PaluwaganError::MemberNotFound)
            &&& (g.status == GroupStatus::Active && amount == g.contribution_amount && on_roster(
                m,
                who@,
            ) && paid_in(round, who@)) ==> r == Err::<Deposit, PaluwaganError>(
                PaluwaganError::AlreadyContributed,
            )
        }),
{
    let gi = s.group_index(group_id)->0;
    assert(is_first_group(s.groups, group_id, gi));
    let g = s.groups[gi];
    assert(group_wf(s, g));
    let m = s.roster(group_id);
    contribute_never_overflows(s, group_id, who, amount, now);
    if on_roster(m, who@) {
        let j = choose|j: int| 0 <= j < m.len() && m[j].address@ == who@;
        lemma_position_of_distinct(m, who@, j);
        let (s2, r) = contribute_step(s, group_id, who, amount, now);
        if r is Ok {
            let m2 = s2.roster(group_id);
            assert forall|k: int| 0 <= k < m.len() implies (#[trigger] m2[k]).address == m[k].address
                && m2[k].payouts_received == m[k].payouts_received && m2[k].total_contributed
                == m[k].total_contributed + (if m[k].address@ == who@ {
                amount as int
            } else {
                0int
            }) by {
                if k != j {
                    if k < j {
                        assert(m[k].address@ != m[j].address@);
                    } else {
                        assert(m[j].address@ != m[k].address@);
                    }
                }
            }
        }
    }
    if member_position(m, who@) is Some {
        let c = member_position(m, who@)->0;
        assert(is_first_member(m, who@, c));
    }
}

/// The round summary reports the group as stored: its number, its cycle,
/// the turn, the payments received and expected, the start time and the
/// pot; it is fully funded exactly when the round has received as many
/// payments as the group has members, which is exactly when a claim is not
/// refused as unfunded.
pub proof fn cycle_info_reports_group(s: LedgerView, group_id: u64)
    requires
        s.group_index(group_id) is Some,
    ensures
        ({
            let g = s.groups[s.group_index(group_id)->0];
            let info = cycle_info_of(g);
            &&& info.group_id == group_id
            &&& info.cycle_number == g.current_cycle
            &&& info.current_recipient_index == g.current_recipient_index
            &&& info.contributions_received == g.contributions_this_cycle
            &&& info.expected_contributions == g.member_count
            &&& info.cycle_started_at == g.created_at
            &&& fits_i128(g.contribution_amount * g.member_count) ==> info.total_pot
                == g.contribution_amount * g.member_count
            &&& info.is_fully_funded == (g.contributions_this_cycle >= g.member_count)
            &&& info.is_fully_funded == (claim_payout_step(s, group_id).1 != Err::<
                Payout,
                PaluwaganError,
            >(PaluwaganError::CycleNotFunded))
        }),
{
    let gi = s.group_index(group_id)->0;
    assert(is_first_group(s.groups, group_id, gi));
}

/// On well-formed storage a claim is accepted exactly when the round has
/// received a payment from every member and the pot fits the amount type.
pub proof fn claim_accepted_exactly_when_funded(s: LedgerView, group_id: u64)
    requires
        ledger_wf(s),
        s.group_index(group_id) is Some,
    ensures
        ({
            let g = s.groups[s.group_index(group_id)->0];
            let (s2, r) = claim_payout_step(s, group_id);
            &&& (r is Ok) == (g.contributions_this_cycle >= g.member_count && fits_i128(
                g.contribution_amount * g.member_count,
            ))
            &&& r is Err ==> s2 == s
            &&& g.contributions_this_cycle < g.member_count ==> r == Err::<Payout, PaluwaganError>(
                PaluwaganError::CycleNotFunded,
            )
            &&& (g.contributions_this_cycle >= g.member_count && !fits_i128(
                g.contribution_amount * g.member_count,
            )) ==> r == Err::<Payout, PaluwaganError>(PaluwaganError::ArithmeticError)
        }),
{
    let gi = s.group_index(group_id)->0;
    assert(is_first_group(s.groups, group_id, gi));
    let g = s.groups[gi];
    assert(group_wf(s, g));
    let m = s.roster(group_id);
    if g.contributions_this_cycle >= g.member_count {
        assert(g.status == GroupStatus::Active);
        assert(m.len() == g.member_count);
        let idx = g.current_recipient_index;
        assert(m[idx as int].payouts_received == 0);
        lemma_next_recipient(idx, g.member_count);
    }
}

/// Every request on a group number that is not in the registry is refused
/// as such and changes nothing.
pub proof fn unknown_group_refused(s: LedgerView, group_id: u64, who: Address, amount: i128, now: u64)
    requires
        s.group_index(group_id) is None,
    ensures
        add_member_step(s, group_id, who, now) == (s, Err::<bool, PaluwaganError>(
            PaluwaganError::GroupNotFound,
        )),
        contribute_step(s, group_id, who, amount, now) == (s, Err::<Deposit, PaluwaganError>(
            PaluwaganError::GroupNotFound,
        )),
        claim_payout_step(s, group_id) == (s, Err::<Payout, PaluwaganError>(
            PaluwaganError::GroupNotFound,
        )),
{
}

/// Each refusal aborts with its own text, and no two refusals share one.
pub proof fn refusal_texts(a: PaluwaganError, b: PaluwaganError)
    ensures
        a != b ==> error_message(a) != error_message(b),
        error_message(PaluwaganError::InvalidMemberCount) == "Member count must be between 2 and 100"@,
        error_message(PaluwaganError::InvalidContributionAmount) == "Contribution amount must be positive"@,
        error_message(PaluwaganError::InvalidFrequency) == "Frequency must be at least 1 day"@,
        error_message(PaluwaganError::GroupNotFound) == "Group not found"@,
        error_message(PaluwaganError::MemberAlreadyExists) == "Member already exists in group"@,
        error_message(PaluwaganError::GroupFull) == "Group is at full capacity"@,
        error_message(PaluwaganError::GroupNotActive) == "Group is not active"@,
        error_message(PaluwaganError::AmountMismatch) == "Amount does not match group contribution"@,
        error_message(PaluwaganError::MemberNotFound) == "Member not found in group"@,
        error_message(PaluwaganError::AlreadyContributed) == "Member already contributed this cycle"@,
        error_message(PaluwaganError::CycleNotFunded) == "Cycle not fully funded yet"@,
        error_message(PaluwaganError::NoMembers) == "No members in group"@,
        error_message(PaluwaganError::RecipientMissing) == "Recipient index out of range"@,
        error_message(PaluwaganError::ArithmeticError) == "Arithmetic overflow"@,
{
    reveal_strlit("Member count must be between 2 and 100");
    reveal_strlit("Contribution amount must be positive");
    reveal_strlit("Frequency must be at least 1 day");
    reveal_strlit("Group not found");
    reveal_strlit("Member already exists in group");
    reveal_strlit("Group is at full capacity");
    reveal_strlit("Group is not active");
    reveal_strlit("Amount does not match group contribution");
    reveal_strlit("Member not found in group");
    reveal_strlit("Member already contributed this cycle");
    reveal_strlit("Cycle not fully funded yet");
    reveal_strlit("No members in group");
    reveal_strlit("Recipient index out of range");
    reveal_strlit("Arithmetic overflow");
    if a != b {
        let x = error_message(a);
        let y = error_message(b);
        if x.len() == y.len() {
            assert(x[0] != y[0] || x[1] != y[1] || x[x.len() - 1] != y[y.len() - 1] || x[2] != y[2] || x[6] != y[6]);
        }
    }
}

/// Once a group is completed every member has received the pot exactly
/// once and paid the amount once per turn.
pub proof fn completed_group_paid_everyone(s: LedgerView, i: int)
    requires
        ledger_wf(s),
        0 <= i < s.groups.len(),
        s.groups[i].status == GroupStatus::Completed,
    ensures
        ({
            let g = s.groups[i];
            let m = s.roster(g.group_id);
            &&& m.len() == g.member_count
            &&& forall|j: int| 0 <= j < m.len() ==> (#[trigger] m[j]).payouts_received == 1
            &&& forall|j: int|
                0 <= j < m.len() ==> (#[trigger] m[j]).total_contributed == g.contribution_amount
                    * g.member_count
        }),
{
    let g = s.groups[i];
    assert(group_wf(s, g));
    let m = s.roster(g.group_id);
    let round = current_round(s.log(g.group_id, g.current_cycle), g.contributions_this_cycle);
    assert(round =~= Seq::<Contribution>::empty());
    assert forall|j: int| 0 <= j < m.len() implies (#[trigger] m[j]).total_contributed
        == g.contribution_amount * g.member_count by {
        assert(!paid_in(round, m[j].address@));
        assert(m[j].total_contributed == g.contribution_amount * (g.member_count + 0int));
    }
}

/// A member pays at most once per round: once a payment is accepted, the
/// same member's next payment into the same round is refused.
pub proof fn one_payment_per_round(
    s: LedgerView,
    group_id: u64,
    who: Address,
    amount: i128,
    now: u64,
    again: Address,
    later: u64,
)
    requires
        ledger_wf(s),
        contribute_step(s, group_id, who, amount, now).1 is Ok,
        again@ == who@,
    ensures
        contribute_step(contribute_step(s, group_id, who, amount, now).0, group_id, again, amount, later).1
            == Err::<Deposit, PaluwaganError>(PaluwaganError::AlreadyContributed),
{
    let s2 = contribute_step(s, group_id, who, amount, now).0;
    let gi = s.group_index(group_id)->0;
    assert(is_first_group(s.groups, group_id, gi));
    let g = s.groups[gi];
    assert(group_wf(s, g));
    let m = s.roster(group_id);
    let mi = member_position(m, who@)->0;
    assert(is_first_member(m, who@, mi));
    let log = s.log(group_id, g.current_cycle);
    let record = Contribution {
        member: who,
        group_id,
        cycle: g.current_cycle,
        amount,
        timestamp: now,
    };
    assert(is_first_group(s2.groups, group_id, gi)) by {
        assert forall|j: int| 0 <= j < gi implies s2.groups[j].group_id != group_id by {
            assert(s2.groups[j] == s.groups[j]);
        }
    }
    lemma_first_group(s2.groups, group_id, gi);
    let g2 = s2.groups[gi];
    let m2 = s2.roster(group_id);
    assert forall|a: int, b: int| 0 <= a < b < m2.len() implies #[trigger] m2[a].address@
        != #[trigger] m2[b].address@ by {
        assert(m2[a].address@ == m[a].address@);
        assert(m2[b].address@ == m[b].address@);
        assert(m[a].address@ != m[b].address@);
    }
    assert(m2[mi].address@ == again@);
    lemma_position_of_distinct(m2, again@, mi);
    lemma_round_push(log, g.contributions_this_cycle, record);
    let round2 = current_round(s2.log(group_id, g2.current_cycle), g2.contributions_this_cycle);
    assert(round2 == current_round(log, g.contributions_this_cycle).push(record));
    lemma_paid_in_push(current_round(log, g.contributions_this_cycle), record, again@);
}

/// On well-formed storage a payment is never refused for overflow: a
/// member's total stays within the pot, which a payout has already shown
/// to fit, and a round counts at most 100 payments.
pub proof fn contribute_never_overflows(
    s: LedgerView,
    group_id: u64,
    who: Address,
    amount: i128,
    now: u64,
)
    requires
        ledger_wf(s),
    ensures
        contribute_step(s, group_id, who, amount, now).1 != Err::<Deposit, PaluwaganError>(
            PaluwaganError::ArithmeticError,
        ),
{
    if s.group_index(group_id) is Some {
        let gi = s.group_index(group_id)->0;
        assert(is_first_group(s.groups, group_id, gi));
        let g = s.groups[gi];
        assert(group_wf(s, g));
        let m = s.roster(group_id);
        if g.status == GroupStatus::Active && amount == g.contribution_amount && member_position(
            m,
            who@,
        ) is Some {
            let mi = member_position(m, who@)->0;
            assert(is_first_member(m, who@, mi));
            let round = current_round(
                s.log(group_id, g.current_cycle),
                g.contributions_this_cycle,
            );
            if !paid_in(round, who@) {
                let a = g.contribution_amount as int;
                let idx = g.current_recipient_index as int;
                let mc = g.member_count as int;
                assert(m[mi].total_contributed == a * (idx + 0int));
                if idx > 0 {
                    assert(a * mc <= i128::MAX);
                    assert(0 <= a * (idx + 0) + a <= a * mc) by (nonlinear_arith)
                        requires
                            a > 0,
                            0 < idx < mc,
                    ;
                } else {
                    assert(a * (idx + 0) == 0) by (nonlinear_arith)
                        requires
                            idx == 0,
                    ;
                }
            }
        }
    }
}

/// On well-formed storage a claim is never refused for a missing roster or
/// recipient, and refused for overflow only when the pot itself does not
/// fit the amount type.
pub proof fn claim_refusals_on_wf(s: LedgerView, group_id: u64)
    requires
        ledger_wf(s),
    ensures
        ({
            let r = claim_payout_step(s, group_id).1;
            &&& r != Err::<Payout, PaluwaganError>(PaluwaganError::NoMembers)
            &&& r != Err::<Payout, PaluwaganError>(PaluwaganError::RecipientMissing)
            &&& r == Err::<Payout, PaluwaganError>(PaluwaganError::ArithmeticError)
                ==> !fits_i128(pot(s.groups[s.group_index(group_id)->0]))
        }),
{
    if s.group_index(group_id) is Some {
        let gi = s.group_index(group_id)->0;
        assert(is_first_group(s.groups, group_id, gi));
        let g = s.groups[gi];
        assert(group_wf(s, g));
        let m = s.roster(group_id);
        if g.contributions_this_cycle >= g.member_count {
            assert(g.status == GroupStatus::Active);
            assert(m.len() == g.member_count);
            let idx = g.current_recipient_index;
            assert(m[idx as int].payouts_received == 0);
            lemma_next_recipient(idx, g.member_count);
        }
    }
}

// ==================== CONTRIBUTION RECORDS ====================

/// How many cycles a cycle number can tell apart.
pub open spec fn cycle_numbers() -> nat {
    0x1_0000_0000nat
}

/// What `who` paid among these records.
pub open spec fn log_total(log: Seq<Contribution>, who: Seq<char>) -> int
    decreases log.len(),
{
    if log.len() == 0 {
        0
    } else {
        log_total(log.drop_last(), who) + (if log.last().member@ == who {
            log.last().amount as int
        } else {
            0int
        })
    }
}

/// What `who` paid into a group in the cycles numbered below `n`.
pub open spec fn cycles_total(s: LedgerView, group_id: u64, who: Seq<char>, n: nat) -> int
    decreases n,
{
    if n == 0 {
        0
    } else {
        cycles_total(s, group_id, who, (n - 1) as nat) + log_total(
            s.log(group_id, (n - 1) as u32),
            who,
        )
    }
}

/// What `who` paid into a group according to its records, over every cycle.
pub open spec fn records_total(s: LedgerView, group_id: u64, who: Seq<char>) -> int {
    cycles_total(s, group_id, who, cycle_numbers())
}

/// Every member's total is what the records show the member paid.
pub open spec fn totals_backed(s: LedgerView) -> bool {
    forall|gid: u64, k: int|
        0 <= k < s.roster(gid).len() ==> (#[trigger] s.roster(gid)[k]).total_contributed
            == records_total(s, gid, s.roster(gid)[k].address@)
}

/// The records back the totals: every member's total is what the records
/// show the member paid, every record is by a member of its group, and no
/// group number yet to be handed out has records.
pub open spec fn records_agree(s: LedgerView) -> bool {
    &&& totals_backed(s)
    &&& forall|gid: u64, c: u32, i: int|
        0 <= i < s.log(gid, c).len() ==> on_roster(s.roster(gid), (#[trigger] s.log(gid, c)[i]).member@)
    &&& forall|gid: u64, c: u32| gid >= s.next_id() ==> (#[trigger] s.log(gid, c)).len() == 0
}

proof fn lemma_log_total_push(log: Seq<Contribution>, rec: Contribution, who: Seq<char>)
    ensures
        log_total(log.push(rec), who) == log_total(log, who) + (if rec.member@ == who {
            rec.amount as int
        } else {
            0int
        }),
{
    assert(log.push(rec).drop_last() =~= log);
}

proof fn lemma_log_total_stranger(log: Seq<Contribution>, who: Seq<char>)
    requires
        forall|i: int| 0 <= i < log.len() ==> (#[trigger] log[i]).member@ != who,
    ensures
        log_total(log, who) == 0,
    decreases log.len(),
{
    if log.len() > 0 {
        let l1 = log.drop_last();
        assert forall|i: int| 0 <= i < l1.len() implies (#[trigger] l1[i]).member@ != who by {
            assert(l1[i] == log[i]);
        }
        lemma_log_total_stranger(l1, who);
        assert(log.last() == log[log.len() - 1]);
    }
}

proof fn lemma_cycles_total_frame(s: LedgerView, s2: LedgerView, group_id: u64, who: Seq<char>, n: nat)
    requires
        forall|c: u32| #[trigger] s2.log(group_id, c) == s.log(group_id, c),
    ensures
        cycles_total(s2, group_id, who, n) == cycles_total(s, group_id, who, n),
    decreases n,
{
    if n > 0 {
        lemma_cycles_total_frame(s, s2, group_id, who, (n - 1) as nat);
        assert(s2.log(group_id, (n - 1) as u32) == s.log(group_id, (n - 1) as u32));
    }
}

proof fn lemma_cycles_total_append(
    s: LedgerView,
    s2: LedgerView,
    group_id: u64,
    cycle: u32,
    rec: Contribution,
    who: Seq<char>,
    n: nat,
)
    requires
        n <= cycle_numbers(),
        s2.log(group_id, cycle) == s.log(group_id, cycle).push(rec),
        forall|c: u32| c != cycle ==> #[trigger] s2.log(group_id, c) == s.log(group_id, c),
    ensures
        cycles_total(s2, group_id, who, n) == cycles_total(s, group_id, who, n) + (if n > cycle
            && rec.member@ == who {
            rec.amount as int
        } else {
            0int
        }),
    decreases n,
{
    if n > 0 {
        lemma_cycles_total_append(s, s2, group_id, cycle, rec, who, (n - 1) as nat);
        let c = (n - 1) as u32;
        assert(c == n - 1);
        if c == cycle {
            lemma_log_total_push(s.log(group_id, cycle), rec, who);
        } else {
            assert(s2.log(group_id, c) == s.log(group_id, c));
        }
    }
}

proof fn lemma_cycles_total_stranger(s: LedgerView, group_id: u64, who: Seq<char>, n: nat)
    requires
        forall|c: u32, i: int|
            0 <= i < s.log(group_id, c).len() ==> (#[trigger] s.log(group_id, c)[i]).member@ != who,
    ensures
        cycles_total(s, group_id, who, n) == 0,
    decreases n,
{
    if n > 0 {
        lemma_cycles_total_stranger(s, group_id, who, (n - 1) as nat);
        let log = s.log(group_id, (n - 1) as u32);
        assert forall|i: int| 0 <= i < log.len() implies (#[trigger] log[i]).member@ != who by {
            assert(s.log(group_id, (n - 1) as u32)[i].member@ != who);
        }
        lemma_log_total_stranger(log, who);
    }
}

/// Empty storage has no records and no totals to back.
pub proof fn empty_ledger_records_agree(s: LedgerView)
    requires
        s.members == Map::<u64, Seq<Member>>::empty(),
        s.contributions == Map::<(u64, u32), Seq<Contribution>>::empty(),
    ensures
        records_agree(s),
{
}

/// Creating a group keeps the records backing the totals.
pub proof fn initialize_keeps_records_agree(
    s: LedgerView,
    organizer: Address,
    token_contract: Address,
    member_count: u32,
    contribution_amount: i128,
    frequency_days: u32,
    now: u64,
)
    requires
        records_agree(s),
    ensures
        records_agree(
            initialize_step(
                s,
                organizer,
                token_contract,
                member_count,
                contribution_amount,
                frequency_days,
                now,
            ).0,
        ),
{
    let (s2, r) = initialize_step(
        s,
        organizer,
        token_contract,
        member_count,
        contribution_amount,
        frequency_days,
        now,
    );
    if r is Ok {
        let id = s.next_id();
        assert(s2.roster(id) =~= Seq::<Member>::empty());
        assert forall|gid: u64, k: int| 0 <= k < s2.roster(gid).len() implies (
        #[trigger] s2.roster(gid)[k]).total_contributed == records_total(
            s2,
            gid,
            s2.roster(gid)[k].address@,
        ) by {
            assert(gid != id);
            assert(s2.roster(gid) == s.roster(gid));
            assert(s.roster(gid)[k].total_contributed == records_total(
                s,
                gid,
                s.roster(gid)[k].address@,
            ));
            assert forall|c: u32| #[trigger] s2.log(gid, c) == s.log(gid, c) by {}
            lemma_cycles_total_frame(s, s2, gid, s2.roster(gid)[k].address@, cycle_numbers());
        }
        assert forall|gid: u64, c: u32, i: int| 0 <= i < s2.log(gid, c).len() implies on_roster(
            s2.roster(gid),
            (#[trigger] s2.log(gid, c)[i]).member@,
        ) by {
            assert(s2.log(gid, c) == s.log(gid, c));
            if gid == id {
                assert(s.log(gid, c).len() == 0);
            }
            assert(on_roster(s.roster(gid), s.log(gid, c)[i].member@));
            assert(s2.roster(gid) == s.roster(gid));
        }
        assert forall|gid: u64, c: u32| gid >= s2.next_id() implies (#[trigger] s2.log(
            gid,
            c,
        )).len() == 0 by {
            assert(s2.log(gid, c) == s.log(gid, c));
        }
    }
}

/// Adding a member keeps the records backing the totals: the newcomer has
/// no records, and so a total of 0.
pub proof fn add_member_keeps_records_agree(s: LedgerView, group_id: u64, who: Address, now: u64)
    requires
        records_agree(s),
    ensures
        records_agree(add_member_step(s, group_id, who, now).0),
{
    let (s2, r) = add_member_step(s, group_id, who, now);
    if r is Ok {
        let m = s.roster(group_id);
        let joined = Member {
            address: who,
            index: m.len() as u32,
            join_date: now,
            total_contributed: 0,
            payouts_received: 0,
        };
        let m2 = m.push(joined);
        assert(s2.roster(group_id) == m2);
        assert(!on_roster(m, who@)) by {
            if on_roster(m, who@) {
                let j = choose|j: int| 0 <= j < m.len() && m[j].address@ == who@;
                lemma_first_occurrence(m, who@, j);
            }
        }
        assert forall|c: u32, i: int| 0 <= i < s.log(group_id, c).len() implies (
        #[trigger] s.log(group_id, c)[i]).member@ != who@ by {
            assert(on_roster(m, s.log(group_id, c)[i].member@));
        }
        lemma_cycles_total_stranger(s, group_id, who@, cycle_numbers());
        assert forall|gid: u64, k: int| 0 <= k < s2.roster(gid).len() implies (
        #[trigger] s2.roster(gid)[k]).total_contributed == records_total(
            s2,
            gid,
            s2.roster(gid)[k].address@,
        ) by {
            assert forall|c: u32| #[trigger] s2.log(gid, c) == s.log(gid, c) by {}
            lemma_cycles_total_frame(s, s2, gid, s2.roster(gid)[k].address@, cycle_numbers());
            if gid == group_id && k == m.len() {
                assert(s2.roster(gid)[k] == joined);
            } else if gid == group_id {
                assert(m2[k] == m[k]);
                assert(s.roster(gid)[k].total_contributed == records_total(
                    s,
                    gid,
                    s.roster(gid)[k].address@,
                ));
            } else {
                assert(s2.roster(gid) == s.roster(gid));
                assert(s.roster(gid)[k].total_contributed == records_total(
                    s,
                    gid,
                    s.roster(gid)[k].address@,
                ));
            }
        }
        assert forall|gid: u64, c: u32, i: int| 0 <= i < s2.log(gid, c).len() implies on_roster(
            s2.roster(gid),
            (#[trigger] s2.log(gid, c)[i]).member@,
        ) by {
            assert(s2.log(gid, c) == s.log(gid, c));
            assert(on_roster(s.roster(gid), s.log(gid, c)[i].member@));
            if gid == group_id {
                let j = choose|j: int| 0 <= j < m.len() && m[j].address@ == s.log(gid, c)[i].member@;
                assert(m2[j] == m[j]);
            }
        }
        assert forall|gid: u64, c: u32| gid >= s2.next_id() implies (#[trigger] s2.log(
            gid,
            c,
        )).len() == 0 by {
            assert(s2.log(gid, c) == s.log(gid, c));
        }
    }
}

/// Paying into a round keeps every total backed by the records: the
/// payment is recorded once and added once, to the payer alone. On a
/// roster with one entry per address, each member's total is the sum of
/// that member's records over all cycles.
pub proof fn contribute_keeps_totals_backed(
    s: LedgerView,
    group_id: u64,
    who: Address,
    amount: i128,
    now: u64,
)
    requires
        ledger_wf(s),
        totals_backed(s),
    ensures
        totals_backed(contribute_step(s, group_id, who, amount, now).0),
{
    let (s2, r) = contribute_step(s, group_id, who, amount, now);
    if r is Ok {
        let gi = s.group_index(group_id)->0;
        assert(is_first_group(s.groups, group_id, gi));
        let g = s.groups[gi];
        assert(group_wf(s, g));
        let m = s.roster(group_id);
        let mi = member_position(m, who@)->0;
        assert(is_first_member(m, who@, mi));
        let cycle = g.current_cycle;
        let log = s.log(group_id, cycle);
        let record = Contribution { member: who, group_id, cycle, amount, timestamp: now };
        let payer = Member {
            total_contributed: (m[mi].total_contributed + amount) as i128,
            ..m[mi]
        };
        let m2 = m.update(mi, payer);
        assert(s2.roster(group_id) == m2);
        assert(s2.log(group_id, cycle) == log.push(record));
        assert(group_id < s.next_id());
        assert forall|c: u32| c != cycle implies #[trigger] s2.log(group_id, c) == s.log(
            group_id,
            c,
        ) by {}
        assert forall|gid: u64, k: int| 0 <= k < s2.roster(gid).len() implies (
        #[trigger] s2.roster(gid)[k]).total_contributed == records_total(
            s2,
            gid,
            s2.roster(gid)[k].address@,
        ) by {
            if gid == group_id {
                let x = m[k].address@;
                assert(m2[k].address@ == x);
                lemma_cycles_total_append(s, s2, group_id, cycle, record, x, cycle_numbers());
                assert(m[k].total_contributed == records_total(s, group_id, m[k].address@));
                if k != mi {
                    if k < mi {
                        assert(m[k].address@ != m[mi].address@);
                    } else {
                        assert(m[mi].address@ != m[k].address@);
                    }
                    assert(m2[k] == m[k]);
                }
            } else {
                assert(s2.roster(gid) == s.roster(gid));
                assert forall|c: u32| #[trigger] s2.log(gid, c) == s.log(gid, c) by {}
                lemma_cycles_total_frame(s, s2, gid, s2.roster(gid)[k].address@, cycle_numbers());
                assert(s.roster(gid)[k].total_contributed == records_total(
                    s,
                    gid,
                    s.roster(gid)[k].address@,
                ));
            }
        }
    }
}

/// Paying into a round keeps the records backing the totals, and every
/// record by a member of its group.
pub proof fn contribute_keeps_records_agree(
    s: LedgerView,
    group_id: u64,
    who: Address,
    amount: i128,
    now: u64,
)
    requires
        ledger_wf(s),
        records_agree(s),
    ensures
        records_agree(contribute_step(s, group_id, who, amount, now).0),
{
    let (s2, r) = contribute_step(s, group_id, who, amount, now);
    if r is Ok {
        let gi = s.group_index(group_id)->0;
        assert(is_first_group(s.groups, group_id, gi));
        let g = s.groups[gi];
        assert(group_wf(s, g));
        let m = s.roster(group_id);
        let mi = member_position(m, who@)->0;
        assert(is_first_member(m, who@, mi));
        let cycle = g.current_cycle;
        let log = s.log(group_id, cycle);
        let record = Contribution { member: who, group_id, cycle, amount, timestamp: now };
        let payer = Member {
            total_contributed: (m[mi].total_contributed + amount) as i128,
            ..m[mi]
        };
        let m2 = m.update(mi, payer);
        assert(s2.roster(group_id) == m2);
        assert(s2.log(group_id, cycle) == log.push(record));
        assert(group_id < s.next_id());
        assert forall|c: u32| c != cycle implies #[trigger] s2.log(group_id, c) == s.log(
            group_id,
            c,
        ) by {}
        contribute_keeps_totals_backed(s, group_id, who, amount, now);
        assert forall|gid: u64, c: u32, i: int| 0 <= i < s2.log(gid, c).len() implies on_roster(
            s2.roster(gid),
            (#[trigger] s2.log(gid, c)[i]).member@,
        ) by {
            if gid == group_id {
                let x = s2.log(gid, c)[i].member@;
                if c == cycle && i == log.len() {
                    assert(s2.log(gid, c)[i] == record);
                    assert(m2[mi].address@ == who@);
                } else {
                    if c == cycle {
                        assert(s2.log(gid, c)[i] == log[i]);
                    }
                    assert(on_roster(m, x));
                    let j = choose|j: int| 0 <= j < m.len() && m[j].address@ == x;
                    assert(m2[j].address@ == m[j].address@);
                }
            } else {
                assert(s2.log(gid, c) == s.log(gid, c));
                assert(s2.roster(gid) == s.roster(gid));
                assert(on_roster(s.roster(gid), s.log(gid, c)[i].member@));
            }
        }
        assert forall|gid: u64, c: u32| gid >= s2.next_id() implies (#[trigger] s2.log(
            gid,
            c,
        )).len() == 0 by {
            assert(s2.log(gid, c) == s.log(gid, c));
        }
    }
}

/// Paying out leaves the records and the totals alone, so they still agree.
pub proof fn claim_payout_keeps_records_agree(s: LedgerView, group_id: u64)
    requires
        records_agree(s),
    ensures
        records_agree(claim_payout_step(s, group_id).0),
{
    let (s2, r) = claim_payout_step(s, group_id);
    if r is Ok {
        let m = s.roster(group_id);
        let idx = s.groups[s.group_index(group_id)->0].current_recipient_index;
        let paid = Member { payouts_received: (m[idx as int].payouts_received + 1) as u32, ..m[idx as int] };
        assert(s2.roster(group_id) == m.update(idx as int, paid));
        assert forall|gid: u64, k: int| 0 <= k < s2.roster(gid).len() implies (
        #[trigger] s2.roster(gid)[k]).total_contributed == records_total(
            s2,
            gid,
            s2.roster(gid)[k].address@,
        ) by {
            assert(s2.roster(gid)[k].total_contributed == s.roster(gid)[k].total_contributed);
            assert(s2.roster(gid)[k].address@ == s.roster(gid)[k].address@);
            assert forall|c: u32| #[trigger] s2.log(gid, c) == s.log(gid, c) by {}
            lemma_cycles_total_frame(s, s2, gid, s2.roster(gid)[k].address@, cycle_numbers());
            assert(s.roster(gid)[k].total_contributed == records_total(
                s,
                gid,
                s.roster(gid)[k].address@,
            ));
        }
        assert forall|gid: u64, c: u32, i: int| 0 <= i < s2.log(gid, c).len() implies on_roster(
            s2.roster(gid),
            (#[trigger] s2.log(gid, c)[i]).member@,
        ) by {
            let x = s.log(gid, c)[i].member@;
            assert(on_roster(s.roster(gid), x));
            let j = choose|j: int| 0 <= j < s.roster(gid).len() && s.roster(gid)[j].address@ == x;
            assert(s2.roster(gid)[j].address@ == s.roster(gid)[j].address@);
        }
        assert forall|gid: u64, c: u32| gid >= s2.next_id() implies (#[trigger] s2.log(
            gid,
            c,
        )).len() == 0 by {
            assert(s2.log(gid, c) == s.log(gid, c));
        }
    }
}

// ==================== THE ESCROW ====================

/// Everything the members of a roster have paid in, all told.
pub open spec fn paid_into_escrow(m: Seq<Member>) -> int
    decreases m.len(),
{
    if m.len() == 0 {
        0
    } else {
        paid_into_escrow(m.drop_last()) + m.last().total_contributed
    }
}

/// How many pots the members of a roster have received, all told.
pub open spec fn pots_paid_out(m: Seq<Member>) -> int
    decreases m.len(),
{
    if m.len() == 0 {
        0
    } else {
        pots_paid_out(m.drop_last()) + m.last().payouts_received
    }
}

/// How many members of a roster paid among these records.
pub open spec fn members_paid_in(m: Seq<Member>, round: Seq<Contribution>) -> int
    decreases m.len(),
{
    if m.len() == 0 {
        0
    } else {
        members_paid_in(m.drop_last(), round) + (if paid_in(round, m.last().address@) {
            1int
        } else {
            0int
        })
    }
}

pub open spec fn address_set(m: Seq<Member>) -> Set<Seq<char>> {
    Set::new(|x: Seq<char>| on_roster(m, x))
}

pub open spec fn payer_set(round: Seq<Contribution>) -> Set<Seq<char>> {
    Set::new(|x: Seq<char>| paid_in(round, x))
}

proof fn lemma_sum_of_totals(m: Seq<Member>, round: Seq<Contribution>, a: int, done: int)
    requires
        forall|j: int|
            0 <= j < m.len() ==> #[trigger] m[j].total_contributed == a * (done + (if paid_in(
                round,
                m[j].address@,
            ) {
                1int
            } else {
                0int
            })),
    ensures
        paid_into_escrow(m) == a * done * m.len() + a * members_paid_in(m, round),
    decreases m.len(),
{
    if m.len() > 0 {
        let m1 = m.drop_last();
        assert forall|j: int| 0 <= j < m1.len() implies #[trigger] m1[j].total_contributed == a * (
        done + (if paid_in(round, m1[j].address@) {
            1int
        } else {
            0int
        })) by {
            assert(m1[j] == m[j]);
        }
        lemma_sum_of_totals(m1, round, a, done);
        let b: int = if paid_in(round, m.last().address@) {
            1
        } else {
            0
        };
        let n1 = m1.len() as int;
        let c1 = members_paid_in(m1, round);
        assert(m.last().total_contributed == a * (done + b));
        assert(a * done * n1 + a * c1 + a * (done + b) == a * done * (n1 + 1) + a * (c1 + b))
            by (nonlinear_arith);
    }
}

proof fn lemma_sum_of_payouts(m: Seq<Member>, done: int)
    requires
        done >= 0,
        forall|j: int|
            0 <= j < m.len() ==> #[trigger] m[j].payouts_received == (if j < done {
                1u32
            } else {
                0u32
            }),
    ensures
        pots_paid_out(m) == (if done < m.len() {
            done
        } else {
            m.len() as int
        }),
    decreases m.len(),
{
    if m.len() > 0 {
        let m1 = m.drop_last();
        assert forall|j: int| 0 <= j < m1.len() implies #[trigger] m1[j].payouts_received == (if j
            < done {
            1u32
        } else {
            0u32
        }) by {
            assert(m1[j] == m[j]);
        }
        lemma_sum_of_payouts(m1, done);
        assert(m.last() == m[m.len() - 1]);
    }
}


proof fn lemma_count_payers(m: Seq<Member>, round: Seq<Contribution>)
    requires
        forall|i: int, j: int|
            0 <= i < j < m.len() ==> #[trigger] m[i].address@ != #[trigger] m[j].address@,
        payer_set(round).finite(),
    ensures
        members_paid_in(m, round) == payer_set(round).intersect(address_set(m)).len(),
    decreases m.len(),
{
    let a = payer_set(round);
    if m.len() == 0 {
        assert(a.intersect(address_set(m)) =~= Set::<Seq<char>>::empty());
    } else {
        let m1 = m.drop_last();
        let x = m.last().address@;
        assert forall|i: int, j: int| 0 <= i < j < m1.len() implies #[trigger] m1[i].address@
            != #[trigger] m1[j].address@ by {
            assert(m1[i] == m[i] && m1[j] == m[j]);
        }
        lemma_count_payers(m1, round);
        let s1 = a.intersect(address_set(m1));
        assert(!address_set(m1).contains(x)) by {
            if address_set(m1).contains(x) {
                let j = choose|j: int| 0 <= j < m1.len() && m1[j].address@ == x;
                assert(m[j].address@ != m[m.len() - 1].address@);
            }
        }
        assert(s1.finite());
        if paid_in(round, x) {
            assert(a.intersect(address_set(m)) =~= s1.insert(x)) by {
                assert forall|y: Seq<char>| a.intersect(address_set(m)).contains(y) implies s1.insert(
                    x,
                ).contains(y) by {
                    let j = choose|j: int| 0 <= j < m.len() && m[j].address@ == y;
                    if j < m1.len() {
                        assert(m1[j] == m[j]);
                    }
                }
                assert forall|y: Seq<char>| s1.insert(x).contains(y) implies a.intersect(
                    address_set(m),
                ).contains(y) by {
                    if y == x {
                        assert(m[m.len() - 1].address@ == x);
                    } else {
                        let j = choose|j: int| 0 <= j < m1.len() && m1[j].address@ == y;
                        assert(m[j] == m1[j]);
                    }
                }
            }
        } else {
            assert(a.intersect(address_set(m)) =~= s1) by {
                assert forall|y: Seq<char>| a.intersect(address_set(m)).contains(y) implies s1.contains(
                    y,
                ) by {
                    let j = choose|j: int| 0 <= j < m.len() && m[j].address@ == y;
                    if j < m1.len() {
                        assert(m1[j] == m[j]);
                    }
                }
                assert forall|y: Seq<char>| s1.contains(y) implies a.intersect(
                    address_set(m),
                ).contains(y) by {
                    let j = choose|j: int| 0 <= j < m1.len() && m1[j].address@ == y;
                    assert(m[j] == m1[j]);
                }
            }
        }
    }
}

/// Counting the round's payers on the roster gives the round's length.
proof fn lemma_round_payers_counted(m: Seq<Member>, round: Seq<Contribution>)
    requires
        forall|i: int, j: int|
            0 <= i < j < round.len() ==> #[trigger] round[i].member@ != #[trigger] round[j].member@,
        forall|i: int| 0 <= i < round.len() ==> on_roster(m, #[trigger] round[i].member@),
        forall|i: int, j: int|
            0 <= i < j < m.len() ==> #[trigger] m[i].address@ != #[trigger] m[j].address@,
    ensures
        members_paid_in(m, round) == round.len(),
{
    let a = payers(round);
    lemma_payers_distinct(round);
    assert(payer_set(round) =~= a.to_set()) by {
        assert forall|x: Seq<char>| payer_set(round).contains(x) implies a.to_set().contains(x) by {
            let i = choose|i: int| 0 <= i < round.len() && round[i].member@ == x;
            assert(a[i] == x);
        }
        assert forall|x: Seq<char>| a.to_set().contains(x) implies payer_set(round).contains(x) by {
            let i = choose|i: int| 0 <= i < a.len() && a[i] == x;
            assert(round[i].member@ == x);
        }
    }
    lemma_count_payers(m, round);
    assert(payer_set(round).intersect(address_set(m)) =~= payer_set(round)) by {
        assert forall|x: Seq<char>| payer_set(round).contains(x) implies address_set(m).contains(
            x,
        ) by {
            let i = choose|i: int| 0 <= i < round.len() && round[i].member@ == x;
            assert(on_roster(m, round[i].member@));
        }
    }
}

/// The escrow of a group holds exactly the current round's payments:
/// everything its members paid in, less the pots paid out, is the group's
/// amount times the payments received in this round.
pub proof fn escrow_holds_current_round(s: LedgerView, i: int)
    requires
        ledger_wf(s),
        0 <= i < s.groups.len(),
    ensures
        ({
            let g = s.groups[i];
            let m = s.roster(g.group_id);
            paid_into_escrow(m) - pot(g) * pots_paid_out(m) == g.contribution_amount
                * g.contributions_this_cycle
        }),
{
    let g = s.groups[i];
    assert(group_wf(s, g));
    let m = s.roster(g.group_id);
    let round = current_round(s.log(g.group_id, g.current_cycle), g.contributions_this_cycle);
    let done = turns_taken(g);
    let a = g.contribution_amount as int;
    let mc = g.member_count as int;
    let k = g.contributions_this_cycle as int;
    let n = m.len() as int;
    assert(round.len() == k);
    lemma_sum_of_totals(m, round, a, done);
    lemma_round_payers_counted(m, round);
    lemma_sum_of_payouts(m, done);
    assert(0 <= done <= mc);
    assert(pots_paid_out(m) == done);
    if done > 0 {
        assert(n == mc);
        assert(a * done * n + a * k - a * mc * done == a * k) by (nonlinear_arith)
            requires
                n == mc,
        ;
    } else {
        assert(a * done * n + a * k - a * mc * done == a * k) by (nonlinear_arith)
            requires
                done == 0,
        ;
    }
}

} // verus!
