//! The poller's decisions: which address to fetch next, and what a fetch's
//! outcome does to the known records.
//!
//! A cycle goes through the roster in its order. Each outcome is recorded on
//! its own: a record replaces the one that the address had, and a failure
//! removes it, so that no stale record is ever shown. A failure never ends
//! the cycle. Whoever drives the poller fetches, waits between cycles and
//! owns the state; the poller itself does neither.

use crate::address::{Address, AddressKey};
use crate::fetch::{record_verdict, FetchError, FetchErrorView};
use crate::record::BondData;
use crate::store::{with_record, without_key, BondsState};
use vstd::prelude::*;

verus! {

/// The record that a fetch gave, if it gave one.
pub open spec fn success_of<E>(outcome: Result<BondData, E>) -> Option<BondData> {
    match outcome {
        Ok(record) => Some(record),
        Err(_) => None,
    }
}

/// The known records once the fetch of `key` has ended with `outcome`.
pub open spec fn after_fetch(
    state: Map<AddressKey, BondData>,
    key: AddressKey,
    outcome: Option<BondData>,
) -> Map<AddressKey, BondData> {
    match outcome {
        Some(record) => state.insert(key, record),
        None => state.remove(key),
    }
}

/// The known records once every address of `roster` has been fetched in
/// turn, the fetch of `roster[i]` ending with `outcomes[i]`.
pub open spec fn after_cycle(
    state: Map<AddressKey, BondData>,
    roster: Seq<AddressKey>,
    outcomes: Seq<Option<BondData>>,
) -> Map<AddressKey, BondData>
    recommends
        outcomes.len() == roster.len(),
    decreases roster.len(),
{
    if roster.len() == 0 {
        state
    } else {
        after_fetch(
            after_cycle(state, roster.drop_last(), outcomes.drop_last()),
            roster.last(),
            outcomes.last(),
        )
    }
}

/// The entries of the state, in their order, once the fetch of `key` has
/// ended with `outcome`.
pub open spec fn entries_after_fetch(
    entries: Seq<(AddressKey, BondData)>,
    key: AddressKey,
    outcome: Option<BondData>,
) -> Seq<(AddressKey, BondData)> {
    match outcome {
        Some(record) => with_record(entries, key, record),
        None => without_key(entries, key),
    }
}

/// After a failed fetch the address has no record, whatever it had before.
pub proof fn lemma_failure_forgets(state: Map<AddressKey, BondData>, key: AddressKey)
    ensures
        !after_fetch(state, key, None).dom().contains(key),
{
}

/// One fetch touches one address: what is known of any other address is
/// the same before and after.
pub proof fn lemma_fetch_touches_one(
    state: Map<AddressKey, BondData>,
    key: AddressKey,
    outcome: Option<BondData>,
    other: AddressKey,
)
    requires
        other != key,
    ensures
        after_fetch(state, key, outcome).get(other) == state.get(other),
        after_fetch(state, key, outcome).get(key) == outcome,
{
}

/// A record that is about another address than the one asked for is
/// refused as a mismatch, and the address is left without a record.
pub proof fn lemma_mismatch_forgets(
    state: Map<AddressKey, BondData>,
    key: AddressKey,
    record: BondData,
    raw: Seq<char>,
)
    requires
        record.public_key@ != key.address,
        record.account.vote_account@ != key.address,
    ensures
        record_verdict(Ok(record), raw, key.address) == Err::<BondData, FetchErrorView>(
            FetchErrorView::IdentityMismatch { address: key.address },
        ),
        !after_fetch(
            state,
            key,
            success_of(record_verdict(Ok(record), raw, key.address)),
        ).dom().contains(key),
{
}

/// After a cycle, an address knows what its last fetch of the cycle gave: the
/// record where that fetch succeeded, nothing where it failed.
pub proof fn lemma_last_fetch_decides(
    state: Map<AddressKey, BondData>,
    roster: Seq<AddressKey>,
    outcomes: Seq<Option<BondData>>,
    at: int,
)
    requires
        outcomes.len() == roster.len(),
        0 <= at < roster.len(),
        forall|later: int| at < later < roster.len() ==> roster[later] != roster[at],
    ensures
        after_cycle(state, roster, outcomes).get(roster[at]) == outcomes[at],
    decreases roster.len(),
{
    if at < roster.len() - 1 {
        lemma_last_fetch_decides(state, roster.drop_last(), outcomes.drop_last(), at);
    }
}

/// A cycle leaves alone what is not on its roster.
pub proof fn lemma_cycle_leaves_others(
    state: Map<AddressKey, BondData>,
    roster: Seq<AddressKey>,
    outcomes: Seq<Option<BondData>>,
    key: AddressKey,
)
    requires
        outcomes.len() == roster.len(),
        forall|at: int| 0 <= at < roster.len() ==> roster[at] != key,
    ensures
        after_cycle(state, roster, outcomes).get(key) == state.get(key),
    decreases roster.len(),
{
    if roster.len() > 0 {
        lemma_cycle_leaves_others(state, roster.drop_last(), outcomes.drop_last(), key);
    }
}

/// What a cycle leaves known of an address does not depend on how the fetch
/// of any other address ended: had the fetch at position `at` ended with
/// `instead`, a failure or another record, every address but `roster[at]`
/// would know the same.
pub proof fn lemma_outcomes_are_isolated(
    state: Map<AddressKey, BondData>,
    roster: Seq<AddressKey>,
    outcomes: Seq<Option<BondData>>,
    at: int,
    instead: Option<BondData>,
    key: AddressKey,
)
    requires
        outcomes.len() == roster.len(),
        0 <= at < roster.len(),
        key != roster[at],
    ensures
        after_cycle(state, roster, outcomes.update(at, instead)).get(key) == after_cycle(
            state,
            roster,
            outcomes,
        ).get(key),
    decreases roster.len(),
{
    let changed = outcomes.update(at, instead);
    if at < roster.len() - 1 {
        assert(changed.drop_last() =~= outcomes.drop_last().update(at, instead));
        lemma_outcomes_are_isolated(
            state,
            roster.drop_last(),
            outcomes.drop_last(),
            at,
            instead,
            key,
        );
    } else {
        assert(changed.drop_last() =~= outcomes.drop_last());
    }
}

/// A cycle is its fetches one after the other: the state after the first
/// `done + 1` addresses is the state after the first `done`, with the next
/// outcome recorded.
pub proof fn lemma_cycle_goes_fetch_by_fetch(
    state: Map<AddressKey, BondData>,
    roster: Seq<AddressKey>,
    outcomes: Seq<Option<BondData>>,
    done: int,
)
    requires
        outcomes.len() == roster.len(),
        0 <= done < roster.len(),
    ensures
        after_cycle(state, roster.take(done + 1), outcomes.take(done + 1)) == after_fetch(
            after_cycle(state, roster.take(done), outcomes.take(done)),
            roster[done],
            outcomes[done],
        ),
{
    assert(roster.take(done + 1).drop_last() =~= roster.take(done));
    assert(outcomes.take(done + 1).drop_last() =~= outcomes.take(done));
}

/// Records are written whole: at every point of a cycle, what is known of an
/// address is the record that it had before the cycle, or a record that one
/// of the fetches of that address made so far has given, and never anything
/// in between.
pub proof fn lemma_records_are_whole(
    state: Map<AddressKey, BondData>,
    roster: Seq<AddressKey>,
    outcomes: Seq<Option<BondData>>,
    done: int,
    key: AddressKey,
)
    requires
        outcomes.len() == roster.len(),
        0 <= done <= roster.len(),
        after_cycle(state, roster.take(done), outcomes.take(done)).dom().contains(key),
    ensures
        ({
            let seen = after_cycle(state, roster.take(done), outcomes.take(done))[key];
            ||| state.dom().contains(key) && seen == state[key]
            ||| exists|at: int|
                0 <= at < done && roster[at] == key && #[trigger] outcomes[at] == Some(seen)
        }),
    decreases done,
{
    if done == 0 {
        assert(roster.take(0) =~= Seq::empty());
    } else {
        lemma_cycle_goes_fetch_by_fetch(state, roster, outcomes, done - 1);
        let before = after_cycle(state, roster.take(done - 1), outcomes.take(done - 1));
        if roster[done - 1] == key {
            assert(outcomes[done - 1] == Some(after_fetch(
                before,
                roster[done - 1],
                outcomes[done - 1],
            )[key]));
        } else {
            lemma_records_are_whole(state, roster, outcomes, done - 1, key);
        }
    }
}

/// What the poller asks of its driver.
#[derive(Debug)]
pub enum PollAction {
    /// Fetch this address and hand the outcome to [`Poller::record`].
    Fetch { address: Address },
    /// The cycle is through, with a record for `updated` of its fetches.
    /// Wait for the interval, then call [`Poller::start_cycle`].
    Sleep { updated: usize },
}

/// The poller's place in its cycle over a fixed roster.
pub struct Poller {
    roster: Vec<Address>,
    cursor: usize,
    updated: usize,
}

impl Poller {
    /// The addresses to fetch, in the order in which they are fetched.
    pub closed spec fn roster(&self) -> Seq<AddressKey> {
        self.roster@.map_values(|address: Address| address@)
    }

    /// How many addresses of the roster the current cycle is through.
    pub closed spec fn fetched(&self) -> nat {
        self.cursor as nat
    }

    /// How many fetches of the current cycle gave a record.
    pub closed spec fn updated(&self) -> nat {
        self.updated as nat
    }

    #[verifier::type_invariant]
    spec fn within_roster(&self) -> bool {
        self.updated <= self.cursor <= self.roster@.len()
    }

    /// A poller at the start of its first cycle over `roster`.
    pub fn new(roster: Vec<Address>) -> (poller: Self)
        ensures
            poller.roster() == roster@.map_values(|address: Address| address@),
            poller.fetched() == 0,
            poller.updated() == 0,
    {
        Poller { roster, cursor: 0, updated: 0 }
    }

    /// What to do next: fetch the next address of the roster, or, when the
    /// cycle is through, sleep.
    pub fn next_action(&self) -> (action: PollAction)
        ensures
            self.fetched() < self.roster().len() ==> (action matches PollAction::Fetch { address }
                && address@ == self.roster()[self.fetched() as int]),
            self.fetched() >= self.roster().len() ==> action == (PollAction::Sleep {
                updated: self.updated() as usize,
            }),
    {
        proof {
            use_type_invariant(self);
        }
        if self.cursor < self.roster.len() {
            PollAction::Fetch { address: self.roster[self.cursor].clone() }
        } else {
            PollAction::Sleep { updated: self.updated }
        }
    }

    /// Records in `state` how the fetch of the address that
    /// [`Self::next_action`] named ended, and moves on to the next address.
    ///
    /// A record replaces what the address had; a failure removes it. Either
    /// way the cycle goes on, and no other address is touched. Once the
    /// cycle is through there is no fetch to record: the outcome is dropped
    /// and nothing changes.
    pub fn record(&mut self, state: &mut BondsState, outcome: Result<BondData, FetchError>)
        ensures
            final(self).roster() == old(self).roster(),
            old(self).fetched() < old(self).roster().len() ==> {
                &&& final(state)@ == after_fetch(
                    old(state)@,
                    old(self).roster()[old(self).fetched() as int],
                    success_of(outcome),
                )
                &&& final(state).entries() == entries_after_fetch(
                    old(state).entries(),
                    old(self).roster()[old(self).fetched() as int],
                    success_of(outcome),
                )
                &&& final(self).fetched() == old(self).fetched() + 1
                &&& final(self).updated() == old(self).updated() + (if outcome is Ok {
                    1nat
                } else {
                    0nat
                })
            },
            old(self).fetched() >= old(self).roster().len() ==> {
                &&& final(state)@ == old(state)@
                &&& final(state).entries() == old(state).entries()
                &&& final(self).fetched() == old(self).fetched()
                &&& final(self).updated() == old(self).updated()
            },
    {
        proof {
            use_type_invariant(&*self);
        }
        if self.cursor < self.roster.len() {
            match outcome {
                Ok(record) => {
                    state.insert(self.roster[self.cursor].clone(), record);
                    self.cursor = self.cursor + 1;
                    self.updated = self.updated + 1;
                },
                Err(_) => {
                    state.remove(&self.roster[self.cursor]);
                    self.cursor = self.cursor + 1;
                },
            }
        }
    }

    /// Starts the next cycle once the current one is through. In the middle
    /// of a cycle nothing changes.
    pub fn start_cycle(&mut self)
        ensures
            final(self).roster() == old(self).roster(),
            old(self).fetched() >= old(self).roster().len() ==> final(self).fetched() == 0
                && final(self).updated() == 0,
            old(self).fetched() < old(self).roster().len() ==> final(self).fetched() == old(
                self,
            ).fetched() && final(self).updated() == old(self).updated(),
    {
        proof {
            use_type_invariant(&*self);
        }
        if self.cursor >= self.roster.len() {
            self.updated = 0;
            self.cursor = 0;
        }
    }
}

} // verus!
