use marinade_bond_monitor::address::Address;
use marinade_bond_monitor::record::{Account, BondData, VoteAccount};
use marinade_bond_monitor::store::BondsState;

fn address(address: &str, name: &str) -> Address {
    Address::new(address.to_string(), name.to_string())
}

fn bond(public_key: &str, amount_active: &str) -> BondData {
    BondData {
        program_id: "program".to_string(),
        public_key: public_key.to_string(),
        account: Account {
            config: "config".to_string(),
            vote_account: "vote".to_string(),
            authority: "authority".to_string(),
        },
        vote_account: VoteAccount {
            node_pubkey: "node".to_string(),
            authorized_withdrawer: "withdrawer".to_string(),
            commission: 5,
        },
        amount_owned: "20 SOLs".to_string(),
        amount_active: amount_active.to_string(),
        number_active_stake_accounts: 2,
        amount_at_settlements: "0 SOLs".to_string(),
        number_settlement_stake_accounts: 0,
        amount_to_withdraw: "0 SOLs".to_string(),
        withdraw_request: "<NOT EXISTING>".to_string(),
        bond_mint: "mint".to_string(),
    }
}

#[test]
fn addresses_compare_by_both_fields() {
    assert!(address("X", "alpha") == address("X", "alpha"));
    assert!(address("X", "alpha") != address("X", "beta"));
    assert!(address("X", "alpha") != address("Y", "alpha"));
    let first = address("X", "alpha");
    let copy = first.clone();
    assert!(copy == first);
    assert_eq!(copy.address, "X");
    assert_eq!(copy.name, "alpha");
}

#[test]
fn new_state_knows_nothing() {
    let state = BondsState::new();
    assert_eq!(state.len(), 0);
    assert!(state.is_empty());
    assert!(state.get(&address("X", "alpha")).is_none());
    assert!(!state.contains(&address("X", "alpha")));
    assert!(state.entry(0).is_none());
}

#[test]
fn inserted_record_is_found_again() {
    let mut state = BondsState::new();
    state.insert(address("X", "alpha"), bond("X", "12.5 SOLs"));
    assert_eq!(state.len(), 1);
    assert!(!state.is_empty());
    assert!(state.contains(&address("X", "alpha")));
    assert_eq!(state.get(&address("X", "alpha")).unwrap().amount_active, "12.5 SOLs");
    assert!(state.get(&address("Y", "alpha")).is_none());
}

#[test]
fn latest_record_wins() {
    let mut state = BondsState::new();
    state.insert(address("X", "alpha"), bond("X", "1 SOLs"));
    state.insert(address("Y", "beta"), bond("Y", "2 SOLs"));
    state.insert(address("X", "alpha"), bond("X", "3 SOLs"));
    assert_eq!(state.len(), 2);
    assert_eq!(state.get(&address("X", "alpha")).unwrap().amount_active, "3 SOLs");
    assert_eq!(state.get(&address("Y", "beta")).unwrap().amount_active, "2 SOLs");
}

#[test]
fn same_address_under_two_names_is_tracked_twice() {
    let mut state = BondsState::new();
    state.insert(address("X", "alpha"), bond("X", "1 SOLs"));
    state.insert(address("X", "beta"), bond("X", "2 SOLs"));
    assert_eq!(state.len(), 2);
    assert_eq!(state.get(&address("X", "alpha")).unwrap().amount_active, "1 SOLs");
    assert_eq!(state.get(&address("X", "beta")).unwrap().amount_active, "2 SOLs");
    state.remove(&address("X", "alpha"));
    assert!(!state.contains(&address("X", "alpha")));
    assert!(state.contains(&address("X", "beta")));
}

#[test]
fn removed_record_is_gone_and_handed_back() {
    let mut state = BondsState::new();
    state.insert(address("X", "alpha"), bond("X", "1 SOLs"));
    state.insert(address("Y", "beta"), bond("Y", "2 SOLs"));
    let removed = state.remove(&address("X", "alpha"));
    assert_eq!(removed.unwrap().amount_active, "1 SOLs");
    assert_eq!(state.len(), 1);
    assert!(state.get(&address("X", "alpha")).is_none());
    assert_eq!(state.get(&address("Y", "beta")).unwrap().amount_active, "2 SOLs");
    assert!(state.remove(&address("X", "alpha")).is_none());
    assert_eq!(state.len(), 1);
}

#[test]
fn entries_keep_the_order_in_which_addresses_came() {
    let mut state = BondsState::new();
    state.insert(address("A", "one"), bond("A", "1 SOLs"));
    state.insert(address("B", "two"), bond("B", "2 SOLs"));
    state.insert(address("C", "three"), bond("C", "3 SOLs"));
    state.insert(address("A", "one"), bond("A", "4 SOLs"));
    state.remove(&address("B", "two"));
    let first = state.entry(0).unwrap();
    assert_eq!(first.0.address, "A");
    assert_eq!(first.1.amount_active, "4 SOLs");
    let second = state.entry(1).unwrap();
    assert_eq!(second.0.address, "C");
    assert_eq!(second.1.amount_active, "3 SOLs");
    assert!(state.entry(2).is_none());
}

#[test]
fn record_tells_which_address_it_is_about() {
    let record = bond("X", "1 SOLs");
    assert!(record.is_about(&"X".to_string()));
    assert!(record.is_about(&"vote".to_string()));
    assert!(!record.is_about(&"node".to_string()));
    assert!(!record.is_about(&"Y".to_string()));
}

#[test]
fn active_amount_is_read_from_the_record() {
    assert_eq!(bond("X", "12.5 SOLs").active_amount_sol(), Ok("12.5"));
    assert!(bond("X", "unknown").active_amount_sol().is_err());
    assert!(bond("X", "many SOLs").active_amount_sol().is_err());
}
