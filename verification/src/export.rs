//! What the exporter publishes: one gauge sample for each address whose
//! record carries a readable active amount.

use crate::address::AddressKey;
use crate::amount::{amount_number, AmountError};
use crate::record::BondData;
use crate::store::{keys_distinct, BondsState};
use vstd::prelude::*;
use vstd::string::StringExecFns;

verus! {

/// One sample of the active-amount gauge: its four label values and its
/// value, a decimal text.
#[derive(Debug, Clone)]
pub struct GaugeSample {
    /// The display name of the address.
    pub name: String,
    /// The monitored address.
    pub address: String,
    /// The node identity of the bond's vote account.
    pub vote_account: String,
    /// The public key of the bond itself.
    pub bond_account: String,
    /// The active amount in SOL.
    pub value: String,
}

/// The characters of a [`GaugeSample`].
pub struct SampleView {
    pub name: Seq<char>,
    pub address: Seq<char>,
    pub vote_account: Seq<char>,
    pub bond_account: Seq<char>,
    pub value: Seq<char>,
}

impl View for GaugeSample {
    type V = SampleView;

    open spec fn view(&self) -> SampleView {
        SampleView {
            name: self.name@,
            address: self.address@,
            vote_account: self.vote_account@,
            bond_account: self.bond_account@,
            value: self.value@,
        }
    }
}

/// An address that has a record but gets no sample, with the amount text
/// that could not be read and why.
#[derive(Debug, Clone)]
pub struct SkippedAmount {
    pub address: String,
    pub amount_active: String,
    pub reason: AmountError,
}

/// The characters of a [`SkippedAmount`].
pub struct SkippedView {
    pub address: Seq<char>,
    pub amount_active: Seq<char>,
    pub reason: AmountError,
}

impl View for SkippedAmount {
    type V = SkippedView;

    open spec fn view(&self) -> SkippedView {
        SkippedView {
            address: self.address@,
            amount_active: self.amount_active@,
            reason: self.reason,
        }
    }
}

/// What one look at the state yields: the samples to publish, and the
/// addresses left out of them.
#[derive(Debug, Clone)]
pub struct Snapshot {
    pub samples: Vec<GaugeSample>,
    pub skipped: Vec<SkippedAmount>,
}

/// The sample that an entry gives: none where its active amount cannot be
/// read.
pub open spec fn sample_of(entry: (AddressKey, BondData)) -> Option<SampleView> {
    match amount_number(entry.1.amount_active@) {
        Ok(number) => Some(
            SampleView {
                name: entry.0.name,
                address: entry.0.address,
                vote_account: entry.1.vote_account.node_pubkey@,
                bond_account: entry.1.public_key@,
                value: number,
            },
        ),
        Err(_) => None,
    }
}

/// The note that an entry without a sample gives.
pub open spec fn skipped_of(entry: (AddressKey, BondData)) -> Option<SkippedView> {
    match amount_number(entry.1.amount_active@) {
        Ok(_) => None,
        Err(reason) => Some(
            SkippedView {
                address: entry.0.address,
                amount_active: entry.1.amount_active@,
                reason,
            },
        ),
    }
}

/// The samples of `entries`, in their order.
pub open spec fn samples_of(entries: Seq<(AddressKey, BondData)>) -> Seq<SampleView> {
    entries.filter_map(|entry: (AddressKey, BondData)| sample_of(entry))
}

/// The notes on the entries of `entries` that give no sample, in their order.
pub open spec fn skipped_in(entries: Seq<(AddressKey, BondData)>) -> Seq<SkippedView> {
    entries.filter_map(|entry: (AddressKey, BondData)| skipped_of(entry))
}

/// The samples of two runs of entries, one after the other, are the samples
/// of the first followed by those of the second.
pub proof fn lemma_samples_of_add(
    first: Seq<(AddressKey, BondData)>,
    second: Seq<(AddressKey, BondData)>,
)
    ensures
        samples_of(first + second) == samples_of(first) + samples_of(second),
    decreases second.len(),
{
    let to_sample = |entry: (AddressKey, BondData)| sample_of(entry);
    if second.len() == 0 {
        assert(first + second =~= first);
        assert(samples_of(first) + samples_of(second) =~= samples_of(first));
    } else {
        assert((first + second).drop_last() =~= first + second.drop_last());
        lemma_samples_of_add(first, second.drop_last());
        assert(samples_of(first + second) =~= samples_of(first) + samples_of(second));
    }
}

/// An entry whose active amount cannot be read costs that one address its
/// sample: the samples are those of the same entries without it, in their
/// order.
pub proof fn lemma_unreadable_amount_is_left_out(entries: Seq<(AddressKey, BondData)>, at: int)
    requires
        0 <= at < entries.len(),
        amount_number(entries[at].1.amount_active@) is Err,
    ensures
        samples_of(entries) == samples_of(entries.remove(at)),
{
    let before = entries.take(at);
    let after = entries.skip(at + 1);
    let one = seq![entries[at]];
    assert(entries =~= before + one + after);
    assert(entries.remove(at) =~= before + after);
    lemma_samples_of_add(before + one, after);
    lemma_samples_of_add(before, one);
    lemma_samples_of_add(before, after);
    assert(one.drop_last() =~= Seq::empty());
    assert(samples_of(one) =~= Seq::empty()) by {
        reveal_with_fuel(Seq::filter_map, 2);
    }
    assert(samples_of(before) + samples_of(one) =~= samples_of(before));
}

/// An entry whose active amount can be read gives exactly its own sample,
/// between the samples of the entries before it and of those after it.
pub proof fn lemma_readable_amount_is_sampled(entries: Seq<(AddressKey, BondData)>, at: int)
    requires
        0 <= at < entries.len(),
        amount_number(entries[at].1.amount_active@) is Ok,
    ensures
        samples_of(entries) == samples_of(entries.take(at)).push(sample_of(entries[at])->0)
            + samples_of(entries.skip(at + 1)),
{
    let before = entries.take(at);
    let after = entries.skip(at + 1);
    let one = seq![entries[at]];
    assert(entries =~= before + one + after);
    lemma_samples_of_add(before + one, after);
    lemma_samples_of_add(before, one);
    assert(one.drop_last() =~= Seq::empty());
    assert(samples_of(one) =~= seq![sample_of(entries[at])->0]) by {
        reveal_with_fuel(Seq::filter_map, 2);
    }
    assert(samples_of(before) + samples_of(one) =~= samples_of(before).push(
        sample_of(entries[at])->0,
    ));
}

/// The address that a sample is about.
pub open spec fn sample_key(sample: SampleView) -> AddressKey {
    AddressKey { address: sample.address, name: sample.name }
}

/// Every sample is the sample of one of the entries.
pub proof fn lemma_sample_has_its_entry(entries: Seq<(AddressKey, BondData)>, at: int)
    requires
        0 <= at < samples_of(entries).len(),
    ensures
        exists|from: int|
            0 <= from < entries.len() && sample_of(#[trigger] entries[from]) == Some(
                samples_of(entries)[at],
            ),
    decreases entries.len(),
{
    let rest = entries.drop_last();
    if at < samples_of(rest).len() {
        lemma_sample_has_its_entry(rest, at);
        let from = choose|from: int|
            0 <= from < rest.len() && sample_of(#[trigger] rest[from]) == Some(
                samples_of(rest)[at],
            );
        assert(entries[from] == rest[from]);
    } else {
        assert(sample_of(entries[entries.len() - 1]) == Some(samples_of(entries)[at]));
    }
}

/// No address has two samples.
pub proof fn lemma_one_sample_per_address(entries: Seq<(AddressKey, BondData)>)
    requires
        keys_distinct(entries),
    ensures
        forall|i: int, j: int|
            0 <= i < j < samples_of(entries).len() ==> sample_key(
                #[trigger] samples_of(entries)[i],
            ) != sample_key(#[trigger] samples_of(entries)[j]),
    decreases entries.len(),
{
    if entries.len() > 0 {
        let rest = entries.drop_last();
        let last = entries.len() - 1;
        assert forall|i: int, j: int| 0 <= i < j < rest.len() implies (#[trigger] rest[i]).0
            != (#[trigger] rest[j]).0 by {
            assert(entries[i].0 != entries[j].0);
        }
        lemma_one_sample_per_address(rest);
        assert forall|i: int, j: int| 0 <= i < j < samples_of(entries).len() implies sample_key(
            #[trigger] samples_of(entries)[i],
        ) != sample_key(#[trigger] samples_of(entries)[j]) by {
            if j < samples_of(rest).len() {
                assert(samples_of(entries)[i] == samples_of(rest)[i]);
                assert(samples_of(entries)[j] == samples_of(rest)[j]);
            } else {
                assert(samples_of(entries)[i] == samples_of(rest)[i]);
                lemma_sample_has_its_entry(rest, i);
                let from = choose|from: int|
                    0 <= from < rest.len() && sample_of(#[trigger] rest[from]) == Some(
                        samples_of(rest)[i],
                    );
                assert(entries[from].0 != entries[last].0);
                assert(sample_of(entries[last]) == Some(samples_of(entries)[j]));
            }
        }
    }
}

impl Snapshot {
    /// The samples, by their characters.
    pub open spec fn sample_views(&self) -> Seq<SampleView> {
        self.samples@.map_values(|sample: GaugeSample| sample@)
    }

    /// The notes on what was left out, by their characters.
    pub open spec fn skipped_views(&self) -> Seq<SkippedView> {
        self.skipped@.map_values(|note: SkippedAmount| note@)
    }
}

impl BondsState {
    /// Looks at the state once and derives what to publish.
    ///
    /// Every entry gives either a sample or a note, never both: an amount
    /// that cannot be read costs that address its sample and nothing else.
    /// The state is left as it is.
    pub fn snapshot(&self) -> (shot: Snapshot)
        ensures
            shot.sample_views() == samples_of(self.entries()),
            shot.skipped_views() == skipped_in(self.entries()),
            keys_distinct(self.entries()),
    {
        let mut shot = Snapshot { samples: Vec::new(), skipped: Vec::new() };
        let ghost entries = self.entries();
        let ghost to_sample = |entry: (AddressKey, BondData)| sample_of(entry);
        let ghost to_note = |entry: (AddressKey, BondData)| skipped_of(entry);
        let count = self.len();
        let mut index: usize = 0;
        assert(entries.take(0) =~= Seq::empty());
        assert(shot.sample_views() =~= Seq::empty());
        assert(shot.skipped_views() =~= Seq::empty());
        while index < count
            invariant
                index <= count == entries.len(),
                entries == self.entries(),
                to_sample == |entry: (AddressKey, BondData)| sample_of(entry),
                to_note == |entry: (AddressKey, BondData)| skipped_of(entry),
                shot.sample_views() == entries.take(index as int).filter_map(to_sample),
                shot.skipped_views() == entries.take(index as int).filter_map(to_note),
            decreases count - index,
        {
            let ghost samples_before = shot.sample_views();
            let ghost skipped_before = shot.skipped_views();
            proof {
                entries.lemma_filter_map_take_succ(to_sample, index as int);
                entries.lemma_filter_map_take_succ(to_note, index as int);
            }
            match self.entry(index) {
                Some((address, record)) => {
                    match record.active_amount_sol() {
                        Ok(number) => {
                            let sample = GaugeSample {
                                name: address.name.clone(),
                                address: address.address.clone(),
                                vote_account: record.vote_account.node_pubkey.clone(),
                                bond_account: record.public_key.clone(),
                                value: number.to_owned(),
                            };
                            assert(Some(sample@) == sample_of(entries[index as int]));
                            shot.samples.push(sample);
                            assert(shot.sample_views() =~= samples_before.push(sample@));
                            assert(shot.skipped_views() =~= skipped_before);
                        },
                        Err(reason) => {
                            let note = SkippedAmount {
                                address: address.address.clone(),
                                amount_active: record.amount_active.clone(),
                                reason,
                            };
                            assert(Some(note@) == skipped_of(entries[index as int]));
                            shot.skipped.push(note);
                            assert(shot.skipped_views() =~= skipped_before.push(note@));
                            assert(shot.sample_views() =~= samples_before);
                        },
                    }
                },
                None => {},
            }
            index = index + 1;
        }
        assert(entries.take(count as int) =~= entries);
        shot
    }
}

/// The prefix of every metric that the exporter publishes.
pub const METRICS_PREFIX: &'static str = "marinade_bond_monitor";

/// The label names of the active-amount gauge, in the order of
/// [`GaugeSample::label_values`].
pub open spec fn label_names() -> Seq<Seq<char>> {
    seq!["name"@, "address"@, "vote_account"@, "bond_account"@]
}

/// The name of the active-amount gauge.
pub fn gauge_name() -> (name: String)
    ensures
        name@ == METRICS_PREFIX@ + "_bond_value_active_sol"@,
{
    let mut name = METRICS_PREFIX.to_owned();
    name.append("_bond_value_active_sol");
    name
}

/// What the active-amount gauge measures, in words.
pub fn gauge_help() -> (help: &'static str)
    ensures
        help@ == "Active bond value in SOL"@,
{
    "Active bond value in SOL"
}

/// The label names of the active-amount gauge.
pub fn gauge_labels() -> (names: Vec<&'static str>)
    ensures
        names@.map_values(|name: &'static str| name@) == label_names(),
{
    let mut names: Vec<&'static str> = Vec::new();
    names.push("name");
    names.push("address");
    names.push("vote_account");
    names.push("bond_account");
    assert(names@.map_values(|name: &'static str| name@) =~= label_names());
    names
}

impl GaugeSample {
    /// The label values of this sample: display name, address, vote
    /// account and bond account.
    pub fn label_values(&self) -> (values: Vec<&str>)
        ensures
            values@.map_values(|value: &str| value@) == seq![
                self.name@,
                self.address@,
                self.vote_account@,
                self.bond_account@,
            ],
    {
        let mut values: Vec<&str> = Vec::new();
        values.push(self.name.as_str());
        values.push(self.address.as_str());
        values.push(self.vote_account.as_str());
        values.push(self.bond_account.as_str());
        assert(values@.map_values(|value: &str| value@) =~= seq![
            self.name@,
            self.address@,
            self.vote_account@,
            self.bond_account@,
        ]);
        values
    }
}

/// The answer to one request for the metrics.
#[derive(Debug, Clone)]
pub struct MetricsReply {
    /// The HTTP status.
    pub status: u16,
    pub body: String,
}

/// Answers a request with what the encoder made of the samples: the text
/// with status 200, or status 500 and a short notice where encoding failed.
pub fn metrics_reply(encoded: Result<String, String>) -> (reply: MetricsReply)
    ensures
        encoded matches Ok(text) ==> reply.status == 200 && reply.body == text,
        encoded is Err ==> reply.status == 500 && reply.body@ == "Failed to encode metrics"@,
{
    match encoded {
        Ok(text) => MetricsReply { status: 200, body: text },
        Err(_) => MetricsReply { status: 500, body: "Failed to encode metrics".to_owned() },
    }
}

} // verus!
