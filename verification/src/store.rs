//! The latest known record of each monitored address.

use crate::address::{Address, AddressKey};
use crate::record::BondData;
use vstd::prelude::*;

verus! {

/// No key occurs twice in `entries`.
pub open spec fn keys_distinct(entries: Seq<(AddressKey, BondData)>) -> bool {
    forall|i: int, j: int|
        0 <= i < j < entries.len() ==> (#[trigger] entries[i]).0 != (#[trigger] entries[j]).0
}

/// `key` stands at position `at` of `entries`.
pub open spec fn key_at(entries: Seq<(AddressKey, BondData)>, key: AddressKey, at: int) -> bool {
    0 <= at < entries.len() && entries[at].0 == key
}

/// `key` occurs in `entries`.
pub open spec fn has_key(entries: Seq<(AddressKey, BondData)>, key: AddressKey) -> bool {
    exists|at: int| key_at(entries, key, at)
}

/// A position of `key` in `entries` that hold it.
pub open spec fn position_of(entries: Seq<(AddressKey, BondData)>, key: AddressKey) -> int {
    choose|at: int| key_at(entries, key, at)
}

/// The mapping that `entries` stand for: each key that occurs, with the
/// record beside it.
pub open spec fn map_of(entries: Seq<(AddressKey, BondData)>) -> Map<AddressKey, BondData> {
    Map::new(
        |key: AddressKey| has_key(entries, key),
        |key: AddressKey| entries[position_of(entries, key)].1,
    )
}

/// `entries` once `record` has been recorded for `key`: in the place of the
/// record that `key` had, or at the end where it had none.
pub open spec fn with_record(
    entries: Seq<(AddressKey, BondData)>,
    key: AddressKey,
    record: BondData,
) -> Seq<(AddressKey, BondData)> {
    if has_key(entries, key) {
        entries.update(position_of(entries, key), (key, record))
    } else {
        entries.push((key, record))
    }
}

/// `entries` without the record of `key`, the others in their order.
pub open spec fn without_key(entries: Seq<(AddressKey, BondData)>, key: AddressKey) -> Seq<
    (AddressKey, BondData),
> {
    if has_key(entries, key) {
        entries.remove(position_of(entries, key))
    } else {
        entries
    }
}

/// Among distinct keys, a key stands at one position only.
pub proof fn lemma_position_unique(entries: Seq<(AddressKey, BondData)>, key: AddressKey, at: int)
    requires
        keys_distinct(entries),
        key_at(entries, key, at),
    ensures
        has_key(entries, key),
        position_of(entries, key) == at,
        map_of(entries).dom().contains(key),
        map_of(entries)[key] == entries[at].1,
{
    let found = position_of(entries, key);
    assert(key_at(entries, key, found));
    if found < at {
        assert(entries[found].0 != entries[at].0);
    }
    if at < found {
        assert(entries[at].0 != entries[found].0);
    }
}

/// Recording a record keeps the keys distinct and is an insertion into the
/// mapping.
pub proof fn lemma_with_record(
    entries: Seq<(AddressKey, BondData)>,
    key: AddressKey,
    record: BondData,
)
    requires
        keys_distinct(entries),
    ensures
        keys_distinct(with_record(entries, key, record)),
        map_of(with_record(entries, key, record)) == map_of(entries).insert(key, record),
{
    let after = with_record(entries, key, record);
    if has_key(entries, key) {
        let at = position_of(entries, key);
        assert(key_at(entries, key, at));
        assert forall|i: int| 0 <= i < entries.len() implies (#[trigger] after[i]).0
            == entries[i].0 by {}
        assert(keys_distinct(after)) by {
            assert forall|i: int, j: int| 0 <= i < j < after.len() implies (#[trigger] after[i]).0
                != (#[trigger] after[j]).0 by {
                assert(entries[i].0 != entries[j].0);
            }
        }
        assert forall|other: AddressKey| has_key(after, other) == has_key(entries, other) by {
            if has_key(after, other) {
                let i = position_of(after, other);
                assert(key_at(after, other, i));
                assert(key_at(entries, other, i));
            }
            if has_key(entries, other) {
                let i = position_of(entries, other);
                assert(key_at(entries, other, i));
                assert(key_at(after, other, i));
            }
        }
        assert forall|other: AddressKey| has_key(after, other) implies map_of(after)[other]
            == map_of(entries).insert(key, record)[other] by {
            let i = position_of(after, other);
            assert(key_at(after, other, i));
            assert(key_at(entries, other, i));
            lemma_position_unique(after, other, i);
            lemma_position_unique(entries, other, i);
            if other == key {
                lemma_position_unique(entries, key, at);
            }
        }
        assert(map_of(after) =~= map_of(entries).insert(key, record));
    } else {
        assert(keys_distinct(after)) by {
            assert forall|i: int, j: int| 0 <= i < j < after.len() implies (#[trigger] after[i]).0
                != (#[trigger] after[j]).0 by {
                if j < entries.len() {
                    assert(entries[i].0 != entries[j].0);
                } else {
                    assert(!key_at(entries, key, i));
                }
            }
        }
        assert(key_at(after, key, entries.len() as int));
        assert forall|other: AddressKey| has_key(after, other) == (other == key || has_key(
            entries,
            other,
        )) by {
            if has_key(after, other) {
                let i = position_of(after, other);
                assert(key_at(after, other, i));
                if i < entries.len() {
                    assert(key_at(entries, other, i));
                }
            }
            if has_key(entries, other) {
                let i = position_of(entries, other);
                assert(key_at(entries, other, i));
                assert(key_at(after, other, i));
            }
        }
        assert forall|other: AddressKey| has_key(after, other) implies map_of(after)[other]
            == map_of(entries).insert(key, record)[other] by {
            let i = position_of(after, other);
            assert(key_at(after, other, i));
            lemma_position_unique(after, other, i);
            if i < entries.len() {
                assert(key_at(entries, other, i));
                lemma_position_unique(entries, other, i);
            }
        }
        assert(map_of(after) =~= map_of(entries).insert(key, record));
    }
}

/// Taking a key out keeps the keys distinct and is a removal from the
/// mapping.
pub proof fn lemma_without_key(entries: Seq<(AddressKey, BondData)>, key: AddressKey)
    requires
        keys_distinct(entries),
    ensures
        keys_distinct(without_key(entries, key)),
        map_of(without_key(entries, key)) == map_of(entries).remove(key),
{
    let after = without_key(entries, key);
    if has_key(entries, key) {
        let at = position_of(entries, key);
        assert(key_at(entries, key, at));
        assert forall|i: int| 0 <= i < after.len() implies #[trigger] after[i] == entries[if i
            < at {
            i
        } else {
            i + 1
        }] by {}
        assert(keys_distinct(after)) by {
            assert forall|i: int, j: int| 0 <= i < j < after.len() implies (#[trigger] after[i]).0
                != (#[trigger] after[j]).0 by {
                let from_i = if i < at {
                    i
                } else {
                    i + 1
                };
                let from_j = if j < at {
                    j
                } else {
                    j + 1
                };
                assert(entries[from_i].0 != entries[from_j].0);
            }
        }
        assert forall|other: AddressKey| has_key(after, other) == (other != key && has_key(
            entries,
            other,
        )) by {
            if has_key(after, other) {
                let i = position_of(after, other);
                assert(key_at(after, other, i));
                let from = if i < at {
                    i
                } else {
                    i + 1
                };
                assert(key_at(entries, other, from));
                if other == key {
                    lemma_position_unique(entries, key, from);
                }
            }
            if other != key && has_key(entries, other) {
                let i = position_of(entries, other);
                assert(key_at(entries, other, i));
                let to = if i < at {
                    i
                } else {
                    i - 1
                };
                assert(key_at(after, other, to));
            }
        }
        assert forall|other: AddressKey| has_key(after, other) implies map_of(after)[other]
            == map_of(entries).remove(key)[other] by {
            let i = position_of(after, other);
            assert(key_at(after, other, i));
            let from = if i < at {
                i
            } else {
                i + 1
            };
            assert(key_at(entries, other, from));
            lemma_position_unique(after, other, i);
            lemma_position_unique(entries, other, from);
        }
        assert(map_of(after) =~= map_of(entries).remove(key));
    } else {
        assert(map_of(after) =~= map_of(entries).remove(key));
    }
}

/// The bond records that are currently known, at most one per address.
///
/// An address without a record is not known at present: its last fetch
/// failed, or none has been made yet.
pub struct BondsState {
    bond_by_addr: Vec<(Address, BondData)>,
}

impl View for BondsState {
    type V = Map<AddressKey, BondData>;

    /// The record of each address that has one.
    open spec fn view(&self) -> Map<AddressKey, BondData> {
        map_of(self.entries())
    }
}

impl BondsState {
    /// The records with their addresses, in the order in which the addresses
    /// came to be known.
    pub closed spec fn entries(&self) -> Seq<(AddressKey, BondData)> {
        self.bond_by_addr@.map_values(|entry: (Address, BondData)| (entry.0@, entry.1))
    }

    #[verifier::type_invariant]
    spec fn one_record_per_address(&self) -> bool {
        keys_distinct(self.entries())
    }

    /// A state in which no address is known.
    pub fn new() -> (state: Self)
        ensures
            state.entries() == Seq::<(AddressKey, BondData)>::empty(),
            state@ == Map::<AddressKey, BondData>::empty(),
    {
        let state = BondsState { bond_by_addr: Vec::new() };
        assert(state.entries() =~= Seq::empty());
        assert(state@ =~= Map::empty());
        state
    }

    /// Takes the entries out and leaves none behind.
    fn take_entries(&mut self) -> (held: Vec<(Address, BondData)>)
        ensures
            held@ == old(self).bond_by_addr@,
            final(self).bond_by_addr@ == Seq::<(Address, BondData)>::empty(),
    {
        let mut held: Vec<(Address, BondData)> = Vec::new();
        core::mem::swap(&mut self.bond_by_addr, &mut held);
        held
    }

    /// Where the record of `address` stands, if it has one.
    fn position(&self, address: &Address) -> (found: Option<usize>)
        ensures
            found matches Some(at) ==> key_at(self.entries(), address@, at as int),
            found is None ==> !has_key(self.entries(), address@),
    {
        let mut at: usize = 0;
        while at < self.bond_by_addr.len()
            invariant
                at <= self.bond_by_addr@.len(),
                forall|i: int| 0 <= i < at ==> !key_at(self.entries(), address@, i),
            decreases self.bond_by_addr@.len() - at,
        {
            if self.bond_by_addr[at].0 == *address {
                return Some(at);
            }
            at = at + 1;
        }
        None
    }
}

impl BondsState {
    /// The number of addresses that have a record.
    pub fn len(&self) -> (count: usize)
        ensures
            count == self.entries().len(),
            keys_distinct(self.entries()),
    {
        proof {
            use_type_invariant(self);
        }
        self.bond_by_addr.len()
    }

    /// Whether no address has a record.
    pub fn is_empty(&self) -> (empty: bool)
        ensures
            empty == (self.entries().len() == 0),
            empty == (self@ == Map::<AddressKey, BondData>::empty()),
    {
        proof {
            if self.entries().len() > 0 {
                assert(key_at(self.entries(), self.entries()[0].0, 0));
                assert(self@.dom().contains(self.entries()[0].0));
            } else {
                assert(self@ =~= Map::empty());
            }
        }
        self.bond_by_addr.len() == 0
    }

    /// The record of `address`, if it has one.
    pub fn get(&self, address: &Address) -> (found: Option<&BondData>)
        ensures
            found is Some == self@.dom().contains(address@),
            found matches Some(record) ==> *record == self@[address@],
    {
        proof {
            use_type_invariant(self);
        }
        match self.position(address) {
            Some(at) => {
                proof {
                    lemma_position_unique(self.entries(), address@, at as int);
                }
                Some(&self.bond_by_addr[at].1)
            },
            None => None,
        }
    }

    /// The entry at `index`, counted in the order of [`Self::entries`]; none
    /// from the number of entries on.
    pub fn entry(&self, index: usize) -> (found: Option<(&Address, &BondData)>)
        ensures
            found is Some == (index < self.entries().len()),
            found matches Some(entry) ==> (entry.0@, *entry.1) == self.entries()[index as int],
            keys_distinct(self.entries()),
    {
        proof {
            use_type_invariant(self);
        }
        if index < self.bond_by_addr.len() {
            Some((&self.bond_by_addr[index].0, &self.bond_by_addr[index].1))
        } else {
            None
        }
    }

    /// Whether `address` has a record.
    pub fn contains(&self, address: &Address) -> (known: bool)
        ensures
            known == self@.dom().contains(address@),
    {
        self.get(address).is_some()
    }

    /// Makes `record` the record of `address`, in the place of the one that
    /// it had, if any. No other address is touched.
    pub fn insert(&mut self, address: Address, record: BondData)
        ensures
            final(self)@ == old(self)@.insert(address@, record),
            final(self).entries() == with_record(old(self).entries(), address@, record),
            keys_distinct(final(self).entries()),
    {
        proof {
            use_type_invariant(&*self);
            lemma_with_record(self.entries(), address@, record);
        }
        let ghost before = self.entries();
        match self.position(&address) {
            Some(at) => {
                proof {
                    lemma_position_unique(before, address@, at as int);
                }
                let mut held = self.take_entries();
                held[at] = (address, record);
                assert(held@.map_values(|entry: (Address, BondData)| (entry.0@, entry.1))
                    =~= with_record(before, address@, record));
                self.bond_by_addr = held;
            },
            None => {
                let mut held = self.take_entries();
                held.push((address, record));
                assert(held@.map_values(|entry: (Address, BondData)| (entry.0@, entry.1))
                    =~= with_record(before, address@, record));
                self.bond_by_addr = held;
            },
        }
    }

    /// Forgets the record of `address` and hands it back, if it had one. No
    /// other address is touched.
    pub fn remove(&mut self, address: &Address) -> (removed: Option<BondData>)
        ensures
            final(self)@ == old(self)@.remove(address@),
            final(self).entries() == without_key(old(self).entries(), address@),
            removed is Some == old(self)@.dom().contains(address@),
            removed matches Some(record) ==> record == old(self)@[address@],
            keys_distinct(final(self).entries()),
    {
        proof {
            use_type_invariant(&*self);
            lemma_without_key(self.entries(), address@);
        }
        let ghost before = self.entries();
        match self.position(address) {
            Some(at) => {
                proof {
                    lemma_position_unique(before, address@, at as int);
                }
                let mut held = self.take_entries();
                let entry = held.remove(at);
                assert(held@.map_values(|entry: (Address, BondData)| (entry.0@, entry.1))
                    =~= without_key(before, address@));
                self.bond_by_addr = held;
                Some(entry.1)
            },
            None => None,
        }
    }
}

} // verus!
