use marinade_bond_monitor::address::Address;
use marinade_bond_monitor::fetch::{check_exit, check_record, FetchError};
use marinade_bond_monitor::poller::{PollAction, Poller};
use marinade_bond_monitor::record::{Account, BondData, VoteAccount};
use marinade_bond_monitor::store::BondsState;

fn address(address: &str, name: &str) -> Address {
    Address::new(address.to_string(), name.to_string())
}

fn bond(public_key: &str, amount_active: &str) -> BondData {
    BondData {
        program_id: "program".to_string(),
        public_key: public_key.to_string(),
        account: Account {
            config: "config".to_string(),
            vote_account: "V".to_string(),
            authority: "authority".to_string(),
        },
        vote_account: VoteAccount {
            node_pubkey: "N".to_string(),
            authorized_withdrawer: "withdrawer".to_string(),
            commission: 5,
        },
        amount_owned: "20 SOLs".to_string(),
        amount_active: amount_active.to_string(),
        number_active_stake_accounts: 2,
        amount_at_settlements: "0 SOLs".to_string(),
        number_settlement_stake_accounts: 0,
        amount_to_withdraw: "0 SOLs".to_string(),
        withdraw_request: "<NOT EXISTING>".to_string(),
        bond_mint: "mint".to_string(),
    }
}

fn tool_failure() -> FetchError {
    FetchError::ToolFailed { stdout: String::new(), stderr: "boom".to_string() }
}

fn fetch_address(action: PollAction) -> Address {
    match action {
        PollAction::Fetch { address } => address,
        other => panic!("expected a fetch, got {:?}", other),
    }
}

fn sleep_count(action: PollAction) -> usize {
    match action {
        PollAction::Sleep { updated } => updated,
        other => panic!("expected a sleep, got {:?}", other),
    }
}

#[test]
fn cycle_fetches_the_roster_in_its_order() {
    let mut state = BondsState::new();
    let mut poller = Poller::new(vec![address("A", "one"), address("B", "two")]);
    assert!(fetch_address(poller.next_action()) == address("A", "one"));
    assert!(fetch_address(poller.next_action()) == address("A", "one"));
    poller.record(&mut state, Ok(bond("A", "1 SOLs")));
    assert!(fetch_address(poller.next_action()) == address("B", "two"));
    poller.record(&mut state, Ok(bond("B", "2 SOLs")));
    assert_eq!(sleep_count(poller.next_action()), 2);
    assert_eq!(state.get(&address("A", "one")).unwrap().amount_active, "1 SOLs");
    assert_eq!(state.get(&address("B", "two")).unwrap().amount_active, "2 SOLs");
}

#[test]
fn failure_on_one_address_does_not_stop_the_others() {
    let mut state = BondsState::new();
    let mut poller =
        Poller::new(vec![address("A", "one"), address("B", "two"), address("C", "three")]);
    poller.record(&mut state, Ok(bond("A", "1 SOLs")));
    poller.record(&mut state, Err(tool_failure()));
    assert!(fetch_address(poller.next_action()) == address("C", "three"));
    poller.record(&mut state, Ok(bond("C", "3 SOLs")));
    assert_eq!(sleep_count(poller.next_action()), 2);
    assert_eq!(state.len(), 2);
    assert_eq!(state.get(&address("A", "one")).unwrap().amount_active, "1 SOLs");
    assert!(state.get(&address("B", "two")).is_none());
    assert_eq!(state.get(&address("C", "three")).unwrap().amount_active, "3 SOLs");
}

#[test]
fn failed_fetch_removes_the_record_that_was_there() {
    let mut state = BondsState::new();
    state.insert(address("A", "one"), bond("A", "1 SOLs"));
    state.insert(address("B", "two"), bond("B", "2 SOLs"));
    let mut poller = Poller::new(vec![address("A", "one"), address("B", "two")]);
    poller.record(&mut state, Err(tool_failure()));
    assert!(!state.contains(&address("A", "one")));
    assert_eq!(state.get(&address("B", "two")).unwrap().amount_active, "2 SOLs");
    poller.record(&mut state, Ok(bond("B", "5 SOLs")));
    assert_eq!(sleep_count(poller.next_action()), 1);
    assert_eq!(state.get(&address("B", "two")).unwrap().amount_active, "5 SOLs");
}

#[test]
fn failed_fetch_of_an_unknown_address_leaves_it_unknown() {
    let mut state = BondsState::new();
    let mut poller = Poller::new(vec![address("A", "one")]);
    poller.record(&mut state, Err(tool_failure()));
    assert!(state.is_empty());
    assert_eq!(sleep_count(poller.next_action()), 0);
}

#[test]
fn mismatched_record_removes_the_entry() {
    let mut state = BondsState::new();
    state.insert(address("X", "alpha"), bond("X", "1 SOLs"));
    let mut poller = Poller::new(vec![address("X", "alpha")]);
    let wanted = fetch_address(poller.next_action());
    let verdict = check_record(Ok(bond("other", "9 SOLs")), "raw".to_string(), &wanted.address);
    assert!(matches!(verdict, Err(FetchError::IdentityMismatch { .. })));
    poller.record(&mut state, verdict);
    assert!(!state.contains(&address("X", "alpha")));
    assert!(state.is_empty());
}

#[test]
fn tool_failure_removes_the_entry() {
    let mut state = BondsState::new();
    state.insert(address("X", "alpha"), bond("X", "12.5 SOLs"));
    let mut poller = Poller::new(vec![address("X", "alpha")]);
    let verdict = check_exit(false, String::new(), "exit 1".to_string());
    let outcome = match verdict {
        Ok(_) => panic!("a failed exit was accepted"),
        Err(error) => Err(error),
    };
    poller.record(&mut state, outcome);
    assert!(!state.contains(&address("X", "alpha")));
    assert!(state.snapshot().samples.is_empty());
    assert!(state.snapshot().skipped.is_empty());
}

#[test]
fn next_cycle_starts_only_when_the_cycle_is_through() {
    let mut state = BondsState::new();
    let mut poller = Poller::new(vec![address("A", "one"), address("B", "two")]);
    poller.record(&mut state, Ok(bond("A", "1 SOLs")));
    poller.start_cycle();
    assert!(fetch_address(poller.next_action()) == address("B", "two"));
    poller.record(&mut state, Err(tool_failure()));
    assert_eq!(sleep_count(poller.next_action()), 1);
    poller.start_cycle();
    assert!(fetch_address(poller.next_action()) == address("A", "one"));
    poller.record(&mut state, Err(tool_failure()));
    poller.record(&mut state, Err(tool_failure()));
    assert_eq!(sleep_count(poller.next_action()), 0);
    assert!(state.is_empty());
}

#[test]
fn outcome_without_a_pending_fetch_is_dropped() {
    let mut state = BondsState::new();
    let mut poller = Poller::new(vec![address("A", "one")]);
    poller.record(&mut state, Ok(bond("A", "1 SOLs")));
    poller.record(&mut state, Err(tool_failure()));
    poller.record(&mut state, Ok(bond("A", "7 SOLs")));
    assert_eq!(sleep_count(poller.next_action()), 1);
    assert_eq!(state.get(&address("A", "one")).unwrap().amount_active, "1 SOLs");
}

#[test]
fn empty_roster_only_sleeps() {
    let mut state = BondsState::new();
    let mut poller = Poller::new(Vec::new());
    assert_eq!(sleep_count(poller.next_action()), 0);
    poller.record(&mut state, Ok(bond("A", "1 SOLs")));
    assert!(state.is_empty());
    poller.start_cycle();
    assert_eq!(sleep_count(poller.next_action()), 0);
}

#[test]
fn address_listed_twice_keeps_what_its_last_fetch_gave() {
    let mut state = BondsState::new();
    let mut poller = Poller::new(vec![address("A", "one"), address("A", "one")]);
    poller.record(&mut state, Ok(bond("A", "1 SOLs")));
    poller.record(&mut state, Err(tool_failure()));
    assert_eq!(sleep_count(poller.next_action()), 1);
    assert!(!state.contains(&address("A", "one")));
}
