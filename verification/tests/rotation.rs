use std::collections::HashMap;

use paluwagan::{Address, GroupStatus, Member, PaluwaganError, PaluwaganNiJuan, PaluwagGroup};

fn addr(strkey: &str) -> Address {
    Address::from_strkey(strkey.to_string())
}

const ORGANIZER: &str = "GORGANIZER";
const TOKEN: &str = "CTOKEN";
const NAMES: [&str; 3] = ["GMEMBER0", "GMEMBER1", "GMEMBER2"];

fn three_member_group(amount: i128) -> (PaluwaganNiJuan, u64) {
    let mut contract = PaluwaganNiJuan::new();
    let id = contract.initialize(addr(ORGANIZER), addr(TOKEN), 3, amount, 7, 1000).unwrap();
    for name in NAMES.iter() {
        assert_eq!(contract.add_member(id, addr(name), 1001), Ok(true));
    }
    (contract, id)
}

fn escrow(contract: &PaluwaganNiJuan, id: u64) -> i128 {
    let group = contract.get_group(id).unwrap();
    let pot = group.contribution_amount * group.member_count as i128;
    let members = contract.get_members(id);
    let paid_in: i128 = members.iter().map(|m| m.total_contributed).sum();
    let paid_out: i128 = members.iter().map(|m| m.payouts_received as i128).sum();
    paid_in - pot * paid_out
}

#[test]
fn full_rotation_pays_everyone_once_and_completes() {
    let (mut contract, id) = three_member_group(10);
    for turn in 0..3u32 {
        for name in NAMES.iter() {
            let deposit = contract.contribute(id, addr(name), 10, 2000).unwrap();
            assert_eq!(deposit.token, addr(TOKEN));
            assert_eq!(deposit.from, addr(name));
            assert_eq!(deposit.amount, 10);
        }
        let info = contract.get_cycle_info(id).unwrap();
        assert!(info.is_fully_funded);
        assert_eq!(info.contributions_received, 3);
        assert_eq!(escrow(&contract, id), 30);

        let payout = contract.claim_payout(id).unwrap();
        assert_eq!(payout.amount, 30);
        assert_eq!(payout.token, addr(TOKEN));
        assert_eq!(payout.recipient, addr(NAMES[turn as usize]));
        assert_eq!(escrow(&contract, id), 0);

        let group = contract.get_group(id).unwrap();
        assert_eq!(group.contributions_this_cycle, 0);
        if turn < 2 {
            assert_eq!(group.current_recipient_index, turn + 1);
            assert_eq!(group.current_cycle, 1);
            assert_eq!(group.status, GroupStatus::Active);
        } else {
            assert_eq!(group.current_recipient_index, 0);
            assert_eq!(group.current_cycle, 2);
            assert_eq!(group.status, GroupStatus::Completed);
        }
    }
    let members = contract.get_members(id);
    for (j, m) in members.iter().enumerate() {
        assert_eq!(m.index, j as u32);
        assert_eq!(m.payouts_received, 1);
        assert_eq!(m.total_contributed, 30);
    }
    assert_eq!(
        contract.contribute(id, addr(NAMES[0]), 10, 3000),
        Err(PaluwaganError::GroupNotActive)
    );
    assert_eq!(contract.claim_payout(id), Err(PaluwaganError::CycleNotFunded));
}

#[test]
fn contributions_are_logged_per_cycle() {
    let (mut contract, id) = three_member_group(10);
    for name in NAMES.iter() {
        contract.contribute(id, addr(name), 10, 2000).unwrap();
    }
    contract.claim_payout(id).unwrap();
    contract.contribute(id, addr(NAMES[1]), 10, 2500).unwrap();
    let log = &contract.contributions[&id][&1];
    assert_eq!(log.len(), 4);
    assert_eq!(log[3].member, addr(NAMES[1]));
    assert_eq!(log[3].cycle, 1);
    assert_eq!(log[3].amount, 10);
    assert_eq!(log[3].timestamp, 2500);
    assert_eq!(log[3].group_id, id);
}

#[test]
fn one_payment_per_member_per_round() {
    let (mut contract, id) = three_member_group(10);
    contract.contribute(id, addr(NAMES[0]), 10, 2000).unwrap();
    assert_eq!(
        contract.contribute(id, addr(NAMES[0]), 10, 2001),
        Err(PaluwaganError::AlreadyContributed)
    );
    assert_eq!(contract.get_cycle_info(id).unwrap().contributions_received, 1);
    assert_eq!(escrow(&contract, id), 10);
}

#[test]
fn payout_refused_until_round_is_funded() {
    let (mut contract, id) = three_member_group(10);
    contract.contribute(id, addr(NAMES[0]), 10, 2000).unwrap();
    contract.contribute(id, addr(NAMES[1]), 10, 2000).unwrap();
    assert_eq!(contract.claim_payout(id), Err(PaluwaganError::CycleNotFunded));
    assert!(!contract.get_cycle_info(id).unwrap().is_fully_funded);
}

#[test]
fn contribution_refusals() {
    let (mut contract, id) = three_member_group(10);
    assert_eq!(
        contract.contribute(id, addr(NAMES[0]), 9, 0),
        Err(PaluwaganError::AmountMismatch)
    );
    assert_eq!(
        contract.contribute(id, addr("GSTRANGER"), 10, 0),
        Err(PaluwaganError::MemberNotFound)
    );
    assert_eq!(
        contract.contribute(id + 1, addr(NAMES[0]), 10, 0),
        Err(PaluwaganError::GroupNotFound)
    );
    assert_eq!(contract.get_members(id)[0].total_contributed, 0);
}

#[test]
fn initialize_refusals() {
    let mut contract = PaluwaganNiJuan::new();
    let mut try_init = |count: u32, amount: i128, freq: u32| {
        contract.initialize(addr(ORGANIZER), addr(TOKEN), count, amount, freq, 0)
    };
    assert_eq!(try_init(1, 10, 7), Err(PaluwaganError::InvalidMemberCount));
    assert_eq!(try_init(101, 10, 7), Err(PaluwaganError::InvalidMemberCount));
    assert_eq!(try_init(2, 0, 7), Err(PaluwaganError::InvalidContributionAmount));
    assert_eq!(try_init(2, -5, 7), Err(PaluwaganError::InvalidContributionAmount));
    assert_eq!(try_init(2, 10, 0), Err(PaluwaganError::InvalidFrequency));
    assert_eq!(try_init(2, 10, 1), Ok(1));
    assert_eq!(try_init(100, 10, 365), Ok(2));
    assert_eq!(contract.next_group_id, Some(3));

    let mut full = PaluwaganNiJuan::new();
    full.next_group_id = Some(u64::MAX);
    assert_eq!(
        full.initialize(addr(ORGANIZER), addr(TOKEN), 2, 10, 1, 0),
        Err(PaluwaganError::ArithmeticError)
    );
    assert!(full.groups.is_empty());
}

#[test]
fn groups_are_numbered_in_order_with_empty_rosters() {
    let mut contract = PaluwaganNiJuan::new();
    let a = contract.initialize(addr(ORGANIZER), addr(TOKEN), 2, 10, 1, 5).unwrap();
    let b = contract.initialize(addr("GOTHER"), addr(TOKEN), 3, 20, 2, 6).unwrap();
    assert_eq!((a, b), (1, 2));
    let g = contract.get_group(b).unwrap();
    assert_eq!(g.organizer, addr("GOTHER"));
    assert_eq!(g.created_at, 6);
    assert_eq!(g.frequency_days, 2);
    assert_eq!(g.contributions_this_cycle, 0);
    assert!(contract.get_members(a).is_empty());
    assert!(contract.get_members(77).is_empty());
    assert_eq!(contract.get_cycle_info(a).unwrap().cycle_started_at, 5);
}

#[test]
fn full_group_refuses_members() {
    let mut contract = PaluwaganNiJuan::new();
    let id = contract.initialize(addr(ORGANIZER), addr(TOKEN), 2, 10, 1, 0).unwrap();
    contract.add_member(id, addr(NAMES[0]), 3).unwrap();
    contract.add_member(id, addr(NAMES[1]), 4).unwrap();
    assert_eq!(contract.add_member(id, addr(NAMES[2]), 5), Err(PaluwaganError::GroupFull));
    assert_eq!(contract.add_member(9, addr(NAMES[2]), 5), Err(PaluwaganError::GroupNotFound));
    let members = contract.get_members(id);
    assert_eq!(members.len(), 2);
    assert_eq!(members[1].join_date, 4);
    assert_eq!(members[1].index, 1);
}

#[test]
fn oversized_pot_is_refused() {
    let big = i128::MAX / 2;
    let (mut contract, id) = three_member_group(big);
    assert_eq!(contract.get_cycle_info(id), Err(PaluwaganError::ArithmeticError));
    for name in NAMES.iter() {
        contract.contribute(id, addr(name), big, 0).unwrap();
    }
    assert_eq!(contract.claim_payout(id), Err(PaluwaganError::ArithmeticError));
    assert_eq!(contract.get_group(id).unwrap().current_recipient_index, 0);
}

fn stored_group(received: u32, recipient: u32) -> PaluwaganNiJuan {
    let group = PaluwagGroup {
        group_id: 1,
        organizer: addr(ORGANIZER),
        token_contract: addr(TOKEN),
        member_count: 2,
        contribution_amount: 10,
        frequency_days: 1,
        status: GroupStatus::Active,
        created_at: 0,
        current_cycle: 1,
        current_recipient_index: recipient,
        contributions_this_cycle: received,
    };
    PaluwaganNiJuan {
        next_group_id: Some(2),
        groups: vec![group],
        members: HashMap::new(),
        contributions: HashMap::new(),
    }
}

#[test]
fn claims_on_damaged_storage_are_refused() {
    let mut empty = stored_group(2, 0);
    assert_eq!(empty.claim_payout(1), Err(PaluwaganError::NoMembers));

    let mut short = stored_group(2, 1);
    short.members.insert(
        1,
        vec![Member {
            address: addr(NAMES[0]),
            index: 0,
            join_date: 0,
            total_contributed: 10,
            payouts_received: 0,
        }],
    );
    assert_eq!(short.claim_payout(1), Err(PaluwaganError::RecipientMissing));
}

#[test]
fn refusal_messages() {
    assert_eq!(PaluwaganError::GroupNotFound.message(), "Group not found");
    assert_eq!(
        PaluwaganError::InvalidMemberCount.message(),
        "Member count must be between 2 and 100"
    );
    assert_eq!(
        PaluwaganError::AlreadyContributed.message(),
        "Member already contributed this cycle"
    );
    assert_eq!(PaluwaganError::CycleNotFunded.message(), "Cycle not fully funded yet");
    assert_eq!(PaluwaganError::GroupFull.message(), "Group is at full capacity");
}

#[test]
fn address_comparison() {
    let a = addr("GAAA");
    assert!(a.same_as(&addr("GAAA")));
    assert!(!a.same_as(&addr("GAAB")));
    assert_eq!(a.duplicate(), a);
}

#[test]
fn five_member_cycle_progression() {
    let names = ["GM0", "GM1", "GM2", "GM3", "GM4"];
    let mut contract = PaluwaganNiJuan::new();
    let id = contract.initialize(addr(ORGANIZER), addr(TOKEN), 5, 10_000_000, 7, 0).unwrap();
    for name in names.iter() {
        contract.add_member(id, addr(name), 0).unwrap();
    }
    for turn in 0..5usize {
        for name in names.iter() {
            assert!(contract.contribute(id, addr(name), 10_000_000, 0).is_ok());
        }
        let payout = contract.claim_payout(id).unwrap();
        assert_eq!(payout.amount, 5 * 10_000_000);
        assert_eq!(payout.recipient, addr(names[turn]));
        if turn == 0 {
            let group = contract.get_group(id).unwrap();
            assert_eq!(group.current_recipient_index, 1);
            assert_eq!(contract.get_members(id)[0].payouts_received, 1);
        }
    }
    let group = contract.get_group(id).unwrap();
    assert_eq!(group.current_recipient_index, 0);
    assert_eq!(group.current_cycle, 2);
    assert_eq!(group.status, GroupStatus::Completed);
}

#[test]
fn totals_equal_the_sum_of_records() {
    let (mut contract, id) = three_member_group(10);
    for _ in 0..2 {
        for name in NAMES.iter() {
            contract.contribute(id, addr(name), 10, 0).unwrap();
        }
        contract.claim_payout(id).unwrap();
    }
    contract.contribute(id, addr(NAMES[2]), 10, 0).unwrap();
    for m in contract.get_members(id).iter() {
        let recorded: i128 = contract.contributions[&id]
            .values()
            .flat_map(|log| log.iter())
            .filter(|c| c.member == m.address)
            .map(|c| c.amount)
            .sum();
        assert_eq!(m.total_contributed, recorded);
    }
    assert_eq!(contract.get_members(id)[2].total_contributed, 30);
}
