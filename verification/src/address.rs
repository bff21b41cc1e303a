//! The identity of one monitored account.

use vstd::prelude::*;

verus! {

/// What an [`Address`] is compared and looked up by: the characters of its
/// address string and of its display name.
pub struct AddressKey {
    pub address: Seq<char>,
    pub name: Seq<char>,
}

/// A bond or vote account to monitor, with the name it is displayed under.
///
/// Two addresses are the same only when both fields agree, so one address
/// string under two display names is tracked twice.
#[derive(Debug, Hash)]
pub struct Address {
    pub address: String,
    pub name: String,
}

impl View for Address {
    type V = AddressKey;

    open spec fn view(&self) -> AddressKey {
        AddressKey { address: self.address@, name: self.name@ }
    }
}

impl Clone for Address {
    fn clone(&self) -> (copy: Self)
        ensures
            copy == *self,
    {
        Address { address: self.address.clone(), name: self.name.clone() }
    }
}

impl PartialEq for Address {
    /// Whether both the address and the display name agree.
    fn eq(&self, other: &Self) -> (same: bool) {
        self.address == other.address && self.name == other.name
    }
}

impl Eq for Address {

}

impl vstd::std_specs::cmp::PartialEqSpecImpl for Address {
    open spec fn obeys_eq_spec() -> bool {
        true
    }

    open spec fn eq_spec(&self, other: &Self) -> bool {
        self.address@ == other.address@ && self.name@ == other.name@
    }
}

impl Address {
    /// An address from its two parts.
    pub fn new(address: String, name: String) -> (made: Self)
        ensures
            made.address == address,
            made.name == name,
    {
        Address { address, name }
    }
}

} // verus!
