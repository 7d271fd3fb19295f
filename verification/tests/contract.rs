use paluwagan::{Address, GroupStatus, PaluwaganError, PaluwaganNiJuan};

fn addr(strkey: &str) -> Address {
    Address::from_strkey(strkey.to_string())
}

const ORGANIZER: &str = "GORGANIZERAAAAAAAAAAAAAAAAAAAAAAAAAAAAAAAAAAAAAAAAAAAAAA";
const TOKEN: &str = "CTOKENAAAAAAAAAAAAAAAAAAAAAAAAAAAAAAAAAAAAAAAAAAAAAAAAAA";
const MEMBER_1: &str = "GMEMBER1AAAAAAAAAAAAAAAAAAAAAAAAAAAAAAAAAAAAAAAAAAAAAAAA";

#[test]
fn lib_test_initialize_group_happy_path() {
    let mut contract = PaluwaganNiJuan::new();

    let group_id = contract
        .initialize(addr(ORGANIZER), addr(TOKEN), 5, 1_000_000, 7, 0)
        .unwrap();

    assert_eq!(group_id, 1, "First group should have ID 1");

    let group = contract.get_group(group_id).unwrap();
    assert_eq!(group.member_count, 5);
    assert_eq!(group.contribution_amount, 1_000_000);
    assert_eq!(group.status, GroupStatus::Active);
}

#[test]
fn test_add_member_succeeds() {
    let mut contract = PaluwaganNiJuan::new();
    let member1 = addr(MEMBER_1);

    let group_id = contract
        .initialize(addr(ORGANIZER), addr(TOKEN), 5, 1_000_000, 7, 0)
        .unwrap();

    let result = contract.add_member(group_id, member1.clone(), 0).unwrap();
    assert!(result, "Member should be added successfully");

    let members = contract.get_members(group_id);
    assert_eq!(members.len(), 1, "Group should have 1 member");
    assert_eq!(members[0].address, member1);
}

#[test]
fn lib_test_get_cycle_info_pot_calculation() {
    let mut contract = PaluwaganNiJuan::new();

    let group_id = contract
        .initialize(addr(ORGANIZER), addr(TOKEN), 4, 1_000_000, 7, 0)
        .unwrap();

    let cycle_info = contract.get_cycle_info(group_id).unwrap();
    assert_eq!(cycle_info.total_pot, 4_000_000, "Pot should be 4 × 1_000_000");
    assert_eq!(cycle_info.cycle_number, 1);
    assert_eq!(cycle_info.contributions_received, 0);
    assert_eq!(cycle_info.expected_contributions, 4);
    assert_eq!(cycle_info.is_fully_funded, false);
    assert_eq!(cycle_info.current_recipient_index, 0);
}

#[test]
fn lib_test_group_not_found_error() {
    let contract = PaluwaganNiJuan::new();

    let result = contract.get_group(999);

    assert!(result.is_err(), "Should panic on group not found");
}

#[test]
fn test_test_initialize_group_happy_path() {
    let mut contract = PaluwaganNiJuan::new();

    let group_id = contract
        .initialize(addr(ORGANIZER), addr(TOKEN), 5, 1_000_000, 7, 0)
        .unwrap();

    assert_eq!(group_id, 1, "First group should have ID 1");

    let group = contract.get_group(group_id).unwrap();
    assert_eq!(group.member_count, 5);
    assert_eq!(group.contribution_amount, 1_000_000);
    assert_eq!(group.status, GroupStatus::Active);
    assert_eq!(group.current_cycle, 1);
    assert_eq!(group.current_recipient_index, 0);
}

#[test]
fn test_add_member_duplicate_fails() {
    let mut contract = PaluwaganNiJuan::new();
    let member1 = addr(MEMBER_1);

    let group_id = contract
        .initialize(addr(ORGANIZER), addr(TOKEN), 5, 1_000_000, 7, 0)
        .unwrap();

    contract.add_member(group_id, member1.clone(), 0).unwrap();

    let result = contract.add_member(group_id, member1.clone(), 0);

    assert!(result.is_err(), "Should panic when adding duplicate member");
    assert_eq!(result, Err(PaluwaganError::MemberAlreadyExists));
}

#[test]
fn test_test_get_cycle_info_pot_calculation() {
    let mut contract = PaluwaganNiJuan::new();

    let group_id = contract
        .initialize(addr(ORGANIZER), addr(TOKEN), 4, 1_000_000, 7, 0)
        .unwrap();

    let cycle_info = contract.get_cycle_info(group_id).unwrap();

    assert_eq!(cycle_info.total_pot, 4_000_000, "Pot should be 4 × 1,000,000");

    assert_eq!(cycle_info.cycle_number, 1);
    assert_eq!(cycle_info.contributions_received, 0);
    assert_eq!(cycle_info.expected_contributions, 4);
    assert_eq!(cycle_info.is_fully_funded, false);
    assert_eq!(cycle_info.current_recipient_index, 0);
}

#[test]
fn test_group_rotation_index_initialization() {
    let mut contract = PaluwaganNiJuan::new();

    let group_id = contract
        .initialize(addr(ORGANIZER), addr(TOKEN), 5, 1_000_000, 7, 0)
        .unwrap();

    let cycle_info = contract.get_cycle_info(group_id).unwrap();
    assert_eq!(
        cycle_info.current_recipient_index, 0,
        "Initial recipient should be member 0"
    );

    let group = contract.get_group(group_id).unwrap();
    assert_eq!(
        group.current_recipient_index, 0,
        "Initial turn counter should be 0"
    );
}

#[test]
fn test_test_group_not_found_error() {
    let contract = PaluwaganNiJuan::new();

    let result = contract.get_group(999);

    assert!(result.is_err(), "Should panic when group not found");
}
