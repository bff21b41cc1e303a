//! What the bonds tool reports of one bond.

use crate::amount::{amount_number, parse_amount, AmountError};
use vstd::prelude::*;

verus! {

/// The bond account's own settings.
#[derive(Debug, Clone)]
pub struct Account {
    pub config: String,
    pub vote_account: String,
    pub authority: String,
}

/// The vote account that a bond belongs to.
#[derive(Debug, Clone)]
pub struct VoteAccount {
    pub node_pubkey: String,
    pub authorized_withdrawer: String,
    pub commission: i32,
}

/// One bond as the tool last reported it.
///
/// The amounts are kept as the tool printed them, unit included: a record
/// with an amount that cannot be read is still a record.
#[derive(Debug, Clone)]
pub struct BondData {
    pub program_id: String,
    pub public_key: String,
    pub account: Account,
    pub vote_account: VoteAccount,
    pub amount_owned: String,
    pub amount_active: String,
    pub number_active_stake_accounts: i32,
    pub amount_at_settlements: String,
    pub number_settlement_stake_accounts: i32,
    pub amount_to_withdraw: String,
    pub withdraw_request: String,
    pub bond_mint: String,
}

impl BondData {
    /// The record is about `address`: that is its own public key, or the
    /// vote account that its bond account names.
    pub open spec fn describes(&self, address: Seq<char>) -> bool {
        self.public_key@ == address || self.account.vote_account@ == address
    }

    /// Whether the record is about `address`.
    pub fn is_about(&self, address: &String) -> (about: bool)
        ensures
            about == self.describes(address@),
    {
        self.public_key == *address || self.account.vote_account == *address
    }

    /// The active amount in SOL, as the decimal text that the tool printed
    /// before the unit.
    ///
    /// Fails where `amount_active` does not end with the unit or holds no
    /// number before it.
    pub fn active_amount_sol(&self) -> (number: Result<&str, AmountError>)
        ensures
            number matches Ok(n) ==> amount_number(self.amount_active@) == Ok::<
                Seq<char>,
                AmountError,
            >(n@),
            number matches Err(e) ==> amount_number(self.amount_active@) == Err::<
                Seq<char>,
                AmountError,
            >(e),
    {
        parse_amount(self.amount_active.as_str())
    }
}

} // verus!
