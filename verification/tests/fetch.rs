use marinade_bond_monitor::fetch::{check_exit, check_record, show_bond_args, FetchError};
use marinade_bond_monitor::record::{Account, BondData, VoteAccount};

fn bond(public_key: &str, vote_account: &str) -> BondData {
    BondData {
        program_id: "program".to_string(),
        public_key: public_key.to_string(),
        account: Account {
            config: "config".to_string(),
            vote_account: vote_account.to_string(),
            authority: "authority".to_string(),
        },
        vote_account: VoteAccount {
            node_pubkey: "N".to_string(),
            authorized_withdrawer: "withdrawer".to_string(),
            commission: 5,
        },
        amount_owned: "20 SOLs".to_string(),
        amount_active: "12.5 SOLs".to_string(),
        number_active_stake_accounts: 2,
        amount_at_settlements: "0 SOLs".to_string(),
        number_settlement_stake_accounts: 0,
        amount_to_withdraw: "0 SOLs".to_string(),
        withdraw_request: "<NOT EXISTING>".to_string(),
        bond_mint: "mint".to_string(),
    }
}

#[test]
fn tool_is_asked_for_one_address_in_full() {
    assert_eq!(show_bond_args("X"), vec!["show-bond", "X", "--with-funding"]);
    assert_eq!(show_bond_args(""), vec!["show-bond", "", "--with-funding"]);
}

#[test]
fn successful_exit_hands_the_output_on() {
    let verdict = check_exit(true, "out".to_string(), "err".to_string());
    assert_eq!(verdict.unwrap(), "out");
}

#[test]
fn failed_exit_keeps_both_streams() {
    let verdict = check_exit(false, "out".to_string(), "err".to_string());
    match verdict {
        Err(FetchError::ToolFailed { stdout, stderr }) => {
            assert_eq!(stdout, "out");
            assert_eq!(stderr, "err");
        }
        other => panic!("unexpected verdict {:?}", other),
    }
}

#[test]
fn record_about_the_address_is_accepted_by_public_key() {
    let verdict = check_record(Ok(bond("X", "V")), "raw".to_string(), "X");
    assert_eq!(verdict.unwrap().public_key, "X");
}

#[test]
fn record_about_the_address_is_accepted_by_vote_account() {
    let verdict = check_record(Ok(bond("B", "X")), "raw".to_string(), "X");
    assert_eq!(verdict.unwrap().public_key, "B");
}

#[test]
fn record_about_another_address_is_a_mismatch() {
    let verdict = check_record(Ok(bond("B", "V")), "raw".to_string(), "X");
    match verdict {
        Err(FetchError::IdentityMismatch { address }) => assert_eq!(address, "X"),
        other => panic!("unexpected verdict {:?}", other),
    }
}

#[test]
fn node_identity_does_not_count_as_a_match() {
    let verdict = check_record(Ok(bond("B", "V")), "raw".to_string(), "N");
    assert!(matches!(verdict, Err(FetchError::IdentityMismatch { .. })));
}

#[test]
fn unreadable_output_is_a_parse_failure() {
    let verdict = check_record(Err("expected value".to_string()), "not json".to_string(), "X");
    match verdict {
        Err(FetchError::ParseFailed { detail, raw }) => {
            assert_eq!(detail, "expected value");
            assert_eq!(raw, "not json");
        }
        other => panic!("unexpected verdict {:?}", other),
    }
}

#[test]
fn errors_are_reported_in_one_line() {
    assert_eq!(
        FetchError::NotStarted { detail: "No such file".to_string() }.message(),
        "No such file"
    );
    assert_eq!(
        FetchError::ToolFailed { stdout: "out".to_string(), stderr: "err".to_string() }.message(),
        "Failed to run show-bond command: stdout: out, stderr: err"
    );
    assert_eq!(
        FetchError::ParseFailed { detail: "eof".to_string(), raw: "{".to_string() }.message(),
        "Failed to unmarshal bond data: eof. Raw output: {"
    );
    assert_eq!(
        FetchError::IdentityMismatch { address: "X".to_string() }.message(),
        "Bond data does not match the provided address: X. Did something change?"
    );
}
