//! Calibration records with anchor-rooted lineage.

use crate::error::EnvError;
use crate::text::{decimal, decimal_text, same_text};
use std::collections::BTreeMap;
use vstd::prelude::*;
use vstd::string::*;

verus! {

/// How a sensor was calibrated, and against what.
#[derive(Debug, Clone, PartialEq, Eq)]
pub struct CalibrationRecord {
    /// Id of the record.
    pub calibration_id: u32,
    /// The calibrated device.
    pub node_id: u64,
    /// Name of the calibrated modality.
    pub modality: String,
    /// How the calibration was made, such as `factory` or `colocation`.
    pub method: String,
    /// The reference station, if there was one.
    pub reference_station: Option<String>,
    /// The record that this one builds on; none for a root.
    pub parent_id: Option<u32>,
    /// Creation time, ns since Unix epoch.
    pub created_ns: u64,
    /// Expiry time, ns since Unix epoch.
    pub expires_ns: u64,
    /// Scale factor, in Q16 fixed point.
    pub scale_q16: i32,
    /// Offset, in Q16 fixed point.
    pub offset_q16: i32,
    /// Uncertainty, in Q16 fixed point.
    pub uncertainty_q16: i32,
    /// Hash of the calibration data.
    pub data_hash: String,
    /// Hex ed25519 signature, if signed.
    pub signature_hex: Option<String>,
    /// Hex signer public key, if signed.
    pub signer_pubkey_hex: Option<String>,
}

/// Errors raised by [`CalibrationStore`].
#[derive(Debug, Clone, PartialEq, Eq)]
pub enum CalibrationError {
    /// The record itself is not valid, or its id is taken.
    Core(EnvError),
    /// No record of this id.
    UnknownRecord(u32),
    /// The parent of a record is missing.
    BrokenLineage {
        /// The record whose parent is missing.
        id: u32,
        /// The missing parent.
        missing_parent: u32,
    },
    /// The parent chain comes back to this record.
    LineageCycle(u32),
    /// The root of the chain was not made at the factory or against an anchor.
    UnanchoredRoot(u32),
}

/// Records by their ids.
pub type Records = Map<u32, CalibrationRecord>;

/// Whether a lineage root with this method counts as anchored: made at the
/// factory or directly against a reference-grade anchor station.
pub open spec fn anchored(method: Seq<char>) -> bool {
    method == "factory"@ || method == "anchor_reference"@
}

/// The ids of a record and its ancestors as far as the list goes, each the
/// parent of the one before it, none twice.
pub open spec fn is_path(records: Records, id: u32, chain: Seq<u32>) -> bool {
    &&& chain.len() > 0
    &&& chain[0] == id
    &&& chain.no_duplicates()
    &&& forall|i: int| 0 <= i < chain.len() ==> records.contains_key(#[trigger] chain[i])
    &&& forall|i: int|
        0 <= i < chain.len() - 1 ==> records[#[trigger] chain[i]].parent_id == Some(chain[i + 1])
}

/// The chain goes from the record to an anchored root.
pub open spec fn is_lineage(records: Records, id: u32, chain: Seq<u32>) -> bool {
    &&& is_path(records, id, chain)
    &&& records[chain.last()].parent_id is None
    &&& anchored(records[chain.last()].method@)
}

/// The lineage of the record verifies.
pub open spec fn verifies(records: Records, id: u32) -> bool {
    exists|chain: Seq<u32>| is_lineage(records, id, chain)
}

/// `result` is what verifying the lineage owes: the chain to an anchored root,
/// or what the chain comes to instead.
pub open spec fn lineage_yields(
    records: Records,
    id: u32,
    result: Result<Seq<u32>, CalibrationError>,
) -> bool {
    match result {
        Ok(chain) => is_lineage(records, id, chain),
        Err(CalibrationError::UnknownRecord(missing)) => missing == id && !records.contains_key(id),
        Err(CalibrationError::BrokenLineage { id: child, missing_parent }) => exists|chain: Seq<u32>|
            #[trigger] is_path(records, id, chain) && chain.last() == child
                && records[child].parent_id == Some(missing_parent) && !records.contains_key(
                missing_parent,
            ),
        Err(CalibrationError::LineageCycle(again)) => exists|chain: Seq<u32>| #[trigger]
            is_path(records, id, chain) && records[chain.last()].parent_id == Some(again)
                && chain.contains(again),
        Err(CalibrationError::UnanchoredRoot(root)) => exists|chain: Seq<u32>| #[trigger]
            is_path(records, id, chain) && chain.last() == root && records[root].parent_id is None
                && !anchored(records[root].method@),
        Err(CalibrationError::Core(_)) => false,
    }
}

/// Why a record that is itself valid is not taken in, if it is not.
pub open spec fn insert_refusal(records: Records, record: CalibrationRecord) -> Option<
    CalibrationError,
> {
    match record.parent_id {
        Some(parent) => if !records.contains_key(parent) {
            Some(
                CalibrationError::BrokenLineage {
                    id: record.calibration_id,
                    missing_parent: parent,
                },
            )
        } else {
            None
        },
        None => if !anchored(record.method@) {
            Some(CalibrationError::UnanchoredRoot(record.calibration_id))
        } else {
            None
        },
    }
}

/// The text that says an id is taken.
pub open spec fn taken_text(id: u32) -> Seq<char> {
    "calibration id "@ + decimal(id as nat) + " already exists; records are immutable"@
}

/// `result` and `after` are what an insert owes, from the records `before`.
pub open spec fn insert_yields(
    before: Records,
    record: CalibrationRecord,
    check: Result<(), EnvError>,
    result: Result<(), CalibrationError>,
    after: Records,
) -> bool {
    match check {
        Err(fault) => {
            &&& result == Err::<(), CalibrationError>(CalibrationError::Core(fault))
            &&& after == before
        },
        Ok(()) => if before.contains_key(record.calibration_id) {
            &&& result matches Err(CalibrationError::Core(EnvError::Invalid(text))) && text@
                == taken_text(record.calibration_id)
            &&& after == before
        } else {
            match insert_refusal(before, record) {
                Some(error) => {
                    &&& result == Err::<(), CalibrationError>(error)
                    &&& after == before
                },
                None => {
                    &&& result == Ok::<(), CalibrationError>(())
                    &&& after == before.insert(record.calibration_id, record)
                },
            }
        },
    }
}

/// A later record, or of two of the same time the one with the higher id.
pub open spec fn newer(a: CalibrationRecord, b: CalibrationRecord) -> bool {
    a.created_ns > b.created_ns || (a.created_ns == b.created_ns && a.calibration_id
        > b.calibration_id)
}

/// Every record stands under its own id.
pub open spec fn keyed(records: Records) -> bool {
    forall|id: u32| #[trigger] records.contains_key(id) ==> records[id].calibration_id == id
}

fn is_anchored_method(method: &str) -> (is: bool)
    ensures
        is == anchored(method@),
{
    same_text(method, "factory") || same_text(method, "anchor_reference")
}

fn taken_message(id: u32) -> (text: String)
    ensures
        text@ == taken_text(id),
{
    let mut text = "calibration id ".to_owned();
    text.append(decimal_text(id as u64).as_str());
    text.append(" already exists; records are immutable");
    text
}

fn is_among(ids: &Vec<u32>, id: u32) -> (is: bool)
    ensures
        is == ids@.contains(id),
{
    let mut i: usize = 0;
    while i < ids.len()
        invariant
            i <= ids.len(),
            forall|k: int| 0 <= k < i ==> ids@[k] != id,
        decreases ids.len() - i,
    {
        if ids[i] == id {
            return true;
        }
        i += 1;
    }
    false
}

/// A path has no more steps than there are records.
proof fn lemma_path_is_bounded(records: Records, chain: Seq<u32>)
    requires
        records.dom().finite(),
        chain.no_duplicates(),
        forall|i: int| 0 <= i < chain.len() ==> records.contains_key(#[trigger] chain[i]),
    ensures
        chain.len() <= records.dom().len(),
{
    chain.unique_seq_to_set();
    assert(chain.to_set().subset_of(records.dom()));
    vstd::set_lib::lemma_len_subset(chain.to_set(), records.dom());
}

/// An in-memory store of [`CalibrationRecord`]s by `calibration_id`, enforcing
/// anchor-rooted lineage when records are inserted and on demand.
///
/// Records are immutable once inserted: an id that is taken is rejected, not
/// overwritten. Only [`Self::insert_unchecked`], which is there to forge
/// stores, goes around that.
#[derive(Debug, Clone)]
pub struct CalibrationStore {
    records: BTreeMap<u32, CalibrationRecord>,
}

impl View for CalibrationStore {
    type V = Records;

    closed spec fn view(&self) -> Records {
        self.records@
    }
}

impl Default for CalibrationStore {
    fn default() -> (store: CalibrationStore)
        ensures
            store@ == Map::<u32, CalibrationRecord>::empty(),
    {
        CalibrationStore::new()
    }
}

impl CalibrationStore {
    /// Create an empty store.
    pub fn new() -> (store: CalibrationStore)
        ensures
            store@ == Map::<u32, CalibrationRecord>::empty(),
    {
        CalibrationStore { records: BTreeMap::new() }
    }

    /// Number of records in the store.
    pub fn len(&self) -> (n: usize)
        ensures
            self@.dom().finite(),
            n == self@.dom().len(),
    {
        self.records.len()
    }

    /// Whether the store holds no records.
    pub fn is_empty(&self) -> (empty: bool)
        ensures
            self@.dom().finite(),
            empty == (self@.dom().len() == 0),
    {
        self.records.len() == 0
    }

    /// Insert a record. `check` is the verdict on the record itself. An id
    /// that is taken is rejected; a parent must already be in the store; a
    /// root must use an anchored method.
    pub fn insert(&mut self, record: CalibrationRecord, check: Result<(), EnvError>) -> (result:
        Result<(), CalibrationError>)
        ensures
            insert_yields(old(self)@, record, check, result, final(self)@),
            old(self)@.dom().finite(),
            final(self)@.dom().finite(),
    {
        match check {
            Ok(()) => {},
            Err(fault) => {
                return Err(CalibrationError::Core(fault));
            },
        }
        if self.records.contains_key(&record.calibration_id) {
            return Err(
                CalibrationError::Core(EnvError::Invalid(taken_message(record.calibration_id))),
            );
        }
        match record.parent_id {
            Some(parent) => {
                if !self.records.contains_key(&parent) {
                    return Err(
                        CalibrationError::BrokenLineage {
                            id: record.calibration_id,
                            missing_parent: parent,
                        },
                    );
                }
            },
            None => {
                if !is_anchored_method(record.method.as_str()) {
                    return Err(CalibrationError::UnanchoredRoot(record.calibration_id));
                }
            },
        }
        self.records.insert(record.calibration_id, record);
        Ok(())
    }

    /// Put a record in as it is, without any check, over whatever stands
    /// under its id. This is for forging stores whose lineage is broken; no
    /// promise of the store survives it.
    pub fn insert_unchecked(&mut self, record: CalibrationRecord)
        ensures
            final(self)@ == old(self)@.insert(record.calibration_id, record),
    {
        self.records.insert(record.calibration_id, record);
    }

    /// Look up a record by id.
    pub fn get(&self, id: u32) -> (record: Option<&CalibrationRecord>)
        ensures
            match record {
                Some(record) => self@.contains_key(id) && *record == self@[id],
                None => !self@.contains_key(id),
            },
    {
        self.records.get(&id)
    }

    /// Walk the parent chain from `id` to its root and return the visited ids
    /// root-last.
    pub fn verify_lineage(&self, id: u32) -> (result: Result<Vec<u32>, CalibrationError>)
        ensures
            lineage_yields(
                self@,
                id,
                match result {
                    Ok(chain) => Ok(chain@),
                    Err(error) => Err(error),
                },
            ),
    {
        let ghost records = self@;
        let mut chain: Vec<u32> = Vec::new();
        let mut current: u32 = id;
        loop
            invariant
                records == self@,
                records.dom().finite(),
                chain@.len() == 0 ==> current == id,
                chain@.len() > 0 ==> is_path(records, id, chain@) && records[chain@.last()].parent_id
                    == Some(current),
                chain@.no_duplicates(),
                forall|i: int| 0 <= i < chain@.len() ==> records.contains_key(#[trigger] chain@[i]),
            decreases records.dom().len() + 1 - chain@.len(),
        {
            if is_among(&chain, current) {
                return Err(CalibrationError::LineageCycle(current));
            }
            let record = match self.records.get(&current) {
                Some(record) => record,
                None => {
                    if chain.len() == 0 {
                        return Err(CalibrationError::UnknownRecord(current));
                    }
                    let child = chain[chain.len() - 1];
                    return Err(
                        CalibrationError::BrokenLineage { id: child, missing_parent: current },
                    );
                },
            };
            let ghost before = chain@;
            chain.push(current);
            proof {
                let longer = chain@;
                assert forall|i: int, j: int|
                    0 <= i < longer.len() && 0 <= j < longer.len() && i != j implies longer[i]
                    != longer[j] by {
                    if i == before.len() {
                        assert(before.contains(before[j]));
                    } else if j == before.len() {
                        assert(before.contains(before[i]));
                    } else {
                        assert(before[i] != before[j]);
                    }
                }
                assert forall|i: int| 0 <= i < longer.len() - 1 implies records[
                    #[trigger] longer[i]].parent_id == Some(longer[i + 1]) by {
                    assert(longer[i] == before[i]);
                    if i < before.len() - 1 {
                        assert(longer[i + 1] == before[i + 1]);
                    }
                }
                lemma_path_is_bounded(records, longer);
                assert(is_path(records, id, longer));
            }
            match record.parent_id {
                Some(parent) => {
                    current = parent;
                },
                None => {
                    if !is_anchored_method(record.method.as_str()) {
                        return Err(CalibrationError::UnanchoredRoot(current));
                    }
                    return Ok(chain);
                },
            }
        }
    }
}

/// Whether a record is one for this node and modality.
pub open spec fn is_for(record: CalibrationRecord, node_id: u64, modality: Seq<char>) -> bool {
    record.node_id == node_id && record.modality@ == modality
}

/// `result` is what looking for the active record owes: a record for the node
/// and modality that has not expired and whose lineage verifies, such that
/// every newer one for them has expired or does not verify; or none, where
/// every one has expired or does not verify.
pub open spec fn active_yields<E: Fn(&CalibrationRecord) -> bool>(
    records: Records,
    node_id: u64,
    modality: Seq<char>,
    expired: E,
    result: Option<CalibrationRecord>,
) -> bool {
    &&& match result {
        Some(record) => {
            &&& exists|id: u32| #[trigger] records.contains_key(id) && records[id] == record
            &&& is_for(record, node_id, modality)
            &&& call_ensures(expired, (&record,), false)
            &&& verifies(records, record.calibration_id)
        },
        None => true,
    }
    &&& forall|id: u32| #[trigger]
        records.contains_key(id) && is_for(records[id], node_id, modality) && (result is None
            || newer(records[id], result->0)) ==> call_ensures(expired, (&records[id],), true)
            || !verifies(records, records[id].calibration_id)
}

/// Where verifying fails, no chain goes to an anchored root.
pub proof fn lemma_failure_is_final(records: Records, id: u32, error: CalibrationError)
    requires
        lineage_yields(records, id, Err(error)),
    ensures
        !verifies(records, id),
{
    if verifies(records, id) {
        let good = choose|chain: Seq<u32>| is_lineage(records, id, chain);
        match error {
            CalibrationError::BrokenLineage { id: child, missing_parent } => {
                let chain = choose|chain: Seq<u32>| #[trigger]
                    is_path(records, id, chain) && chain.last() == child
                        && records[child].parent_id == Some(missing_parent)
                        && !records.contains_key(missing_parent);
                lemma_one_path(records, id, chain, good);
                assert(good[chain.len() as int] == missing_parent);
            },
            CalibrationError::LineageCycle(again) => {
                let chain = choose|chain: Seq<u32>| #[trigger]
                    is_path(records, id, chain) && records[chain.last()].parent_id == Some(again)
                        && chain.contains(again);
                lemma_one_path(records, id, chain, good);
                let i = choose|i: int| 0 <= i < chain.len() && chain[i] == again;
                assert(good[i] == again);
                assert(good[chain.len() as int] == again);
            },
            CalibrationError::UnanchoredRoot(root) => {
                let chain = choose|chain: Seq<u32>| #[trigger]
                    is_path(records, id, chain) && chain.last() == root
                        && records[root].parent_id is None && !anchored(records[root].method@);
                lemma_one_path(records, id, chain, good);
            },
            _ => {
                assert(records.contains_key(good[0]));
            },
        }
    }
}

/// A path runs along every lineage from the same record, and does not end
/// where a parent is to follow.
proof fn lemma_one_path(records: Records, id: u32, chain: Seq<u32>, good: Seq<u32>)
    requires
        is_path(records, id, chain),
        is_lineage(records, id, good),
    ensures
        chain.len() <= good.len(),
        forall|i: int| 0 <= i < chain.len() ==> chain[i] == good[i],
        records[chain.last()].parent_id is Some ==> chain.len() < good.len()
            && good[chain.len() as int] == records[chain.last()].parent_id->0,
        records[chain.last()].parent_id is None ==> chain.last() == good.last(),
    decreases chain.len(),
{
    let n = chain.len() - 1;
    if n > 0 {
        let shorter = chain.drop_last();
        assert forall|i: int, j: int|
            0 <= i < shorter.len() && 0 <= j < shorter.len() && i != j implies shorter[i]
            != shorter[j] by {
            assert(chain[i] != chain[j]);
        }
        assert forall|i: int| 0 <= i < shorter.len() implies records.contains_key(
            #[trigger] shorter[i],
        ) by {
            assert(records.contains_key(chain[i]));
        }
        assert forall|i: int| 0 <= i < shorter.len() - 1 implies records[
            #[trigger] shorter[i]].parent_id == Some(shorter[i + 1]) by {
            assert(chain[i] == shorter[i]);
        }
        lemma_one_path(records, id, shorter, good);
        assert(records[chain[n - 1]].parent_id == Some(chain[n]));
        assert(shorter.last() == chain[n - 1]);
        assert(good[n] == chain[n]);
        assert forall|i: int| 0 <= i < chain.len() implies chain[i] == good[i] by {
            if i < n {
                assert(shorter[i] == good[i]);
            }
        }
    }
    assert(good[n] == chain[n]);
    if n < good.len() - 1 {
        assert(records[good[n]].parent_id == Some(good[n + 1]));
    }
}

impl CalibrationStore {
    /// The newest (highest `created_ns`, ties broken by highest id) record for
    /// a node and modality that has not expired, as `expired` says, and whose
    /// lineage verifies. `None` when there is no such record.
    pub fn active_for<E: Fn(&CalibrationRecord) -> bool>(
        &self,
        node_id: u64,
        modality: &str,
        expired: &E,
    ) -> (result: Option<&CalibrationRecord>)
        requires
            forall|r: &CalibrationRecord| #[trigger] call_requires(*expired, (r,)),
        ensures
            active_yields(
                self@,
                node_id,
                modality@,
                *expired,
                match result {
                    Some(record) => Some(*record),
                    None => None,
                },
            ),
    {
        let mut best: Option<&CalibrationRecord> = None;
        let ghost records = self@;
        for entry in it: self.records.iter()
            invariant
                records == self@,
                forall|i: int|
                    0 <= i < it.seq().len() ==> records.contains_key(*(#[trigger] it.seq()[i]).0)
                        && records[*it.seq()[i].0] == *it.seq()[i].1,
                forall|id: u32| #[trigger]
                    records.contains_key(id) ==> it.seq().contains((&id, &records[id])),
                forall|r: &CalibrationRecord| #[trigger] call_requires(*expired, (r,)),
                best is Some ==> {
                    &&& exists|id: u32| #[trigger]
                        records.contains_key(id) && records[id] == *best->0
                    &&& is_for(*best->0, node_id, modality@)
                    &&& call_ensures(*expired, (best->0,), false)
                    &&& verifies(records, best->0.calibration_id)
                },
                forall|i: int|
                    0 <= i < it.index() && is_for(
                        *(#[trigger] it.seq()[i]).1,
                        node_id,
                        modality@,
                    ) && (best is None || newer(*it.seq()[i].1, *best->0)) ==> call_ensures(
                        *expired,
                        (it.seq()[i].1,),
                        true,
                    ) || !verifies(records, it.seq()[i].1.calibration_id),
        {
            let record: &CalibrationRecord = entry.1;
            if record.node_id == node_id && same_text(record.modality.as_str(), modality) {
                if !expired(record) {
                    match self.verify_lineage(record.calibration_id) {
                        Ok(chain) => {
                            assert(is_lineage(records, record.calibration_id, chain@));
                            let better = match best {
                                Some(best) => record.created_ns > best.created_ns || (
                                record.created_ns == best.created_ns && record.calibration_id
                                    > best.calibration_id),
                                None => true,
                            };
                            if better {
                                assert(records.contains_key(*entry.0) && records[*entry.0]
                                    == *record);
                                best = Some(record);
                            }
                        },
                        Err(error) => {
                            proof {
                                lemma_failure_is_final(records, record.calibration_id, error);
                            }
                        },
                    }
                }
            }
        }
        best
    }
}

} // verus!
