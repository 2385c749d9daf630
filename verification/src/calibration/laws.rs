//! What the calibration store promises over many calls.

use crate::calibration::store::{
    active_yields, anchored, insert_yields, is_lineage, is_path, keyed, lemma_failure_is_final,
    lineage_yields, newer, verifies, CalibrationError, CalibrationRecord, Records,
};
use crate::error::EnvError;
use crate::text::decimal;
use vstd::prelude::*;

verus! {

/// The lineage of every record verifies.
pub open spec fn sound(records: Records) -> bool {
    forall|id: u32| #[trigger] records.contains_key(id) ==> verifies(records, id)
}

/// The path cannot be gone further: it is at a root, its parent is missing, or
/// its parent is on it.
pub open spec fn is_at_end(records: Records, chain: Seq<u32>) -> bool {
    match records[chain.last()].parent_id {
        Some(parent) => !records.contains_key(parent) || chain.contains(parent),
        None => true,
    }
}

/// Paths from the same record run together as far as both go.
proof fn lemma_paths_agree(records: Records, id: u32, a: Seq<u32>, b: Seq<u32>, k: int)
    requires
        is_path(records, id, a),
        is_path(records, id, b),
        0 <= k < a.len(),
        k < b.len(),
    ensures
        a[k] == b[k],
    decreases k,
{
    if k > 0 {
        lemma_paths_agree(records, id, a, b, k - 1);
        assert(records[a[k - 1]].parent_id == Some(a[k - 1 + 1]));
        assert(records[b[k - 1]].parent_id == Some(b[k - 1 + 1]));
    }
}

/// A path that cannot be gone further is the longest.
proof fn lemma_end_is_longest(records: Records, id: u32, a: Seq<u32>, b: Seq<u32>)
    requires
        is_path(records, id, a),
        is_path(records, id, b),
        is_at_end(records, a),
    ensures
        b.len() <= a.len(),
{
    if a.len() < b.len() {
        let n = a.len() - 1;
        lemma_paths_agree(records, id, a, b, n);
        assert(records[b[n]].parent_id == Some(b[n + 1]));
        let parent = b[n + 1];
        assert(records.contains_key(parent));
        let i = choose|i: int| 0 <= i < a.len() && a[i] == parent;
        lemma_paths_agree(records, id, a, b, i);
        assert(b[i] == b[n + 1]);
    }
}

/// There is one path that cannot be gone further.
proof fn lemma_one_end(records: Records, id: u32, a: Seq<u32>, b: Seq<u32>)
    requires
        is_path(records, id, a),
        is_path(records, id, b),
        is_at_end(records, a),
        is_at_end(records, b),
    ensures
        a == b,
{
    lemma_end_is_longest(records, id, a, b);
    lemma_end_is_longest(records, id, b, a);
    assert forall|k: int| 0 <= k < a.len() implies a[k] == b[k] by {
        lemma_paths_agree(records, id, a, b, k);
    }
    assert(a =~= b);
}

/// The path behind a verdict on a known record.
spec fn evidence(
    records: Records,
    id: u32,
    result: Result<Seq<u32>, CalibrationError>,
    chain: Seq<u32>,
) -> bool {
    &&& is_path(records, id, chain)
    &&& is_at_end(records, chain)
    &&& match result {
        Ok(given) => given == chain && records[chain.last()].parent_id is None && anchored(
            records[chain.last()].method@,
        ),
        Err(CalibrationError::BrokenLineage { id: child, missing_parent }) => chain.last() == child
            && records[child].parent_id == Some(missing_parent) && !records.contains_key(
            missing_parent,
        ),
        Err(CalibrationError::LineageCycle(again)) => records[chain.last()].parent_id == Some(again)
            && chain.contains(again),
        Err(CalibrationError::UnanchoredRoot(root)) => chain.last() == root
            && records[root].parent_id is None && !anchored(records[root].method@),
        _ => false,
    }
}

/// Every verdict on a known record has a path behind it.
proof fn lemma_evidence(
    records: Records,
    id: u32,
    result: Result<Seq<u32>, CalibrationError>,
) -> (chain: Seq<u32>)
    requires
        records.contains_key(id),
        lineage_yields(records, id, result),
    ensures
        evidence(records, id, result, chain),
{
    match result {
        Ok(chain) => chain,
        Err(CalibrationError::BrokenLineage { id: child, missing_parent }) => {
            choose|chain: Seq<u32>| #[trigger]
                is_path(records, id, chain) && chain.last() == child && records[child].parent_id
                    == Some(missing_parent) && !records.contains_key(missing_parent)
        },
        Err(CalibrationError::LineageCycle(again)) => {
            choose|chain: Seq<u32>| #[trigger]
                is_path(records, id, chain) && records[chain.last()].parent_id == Some(again)
                    && chain.contains(again)
        },
        Err(CalibrationError::UnanchoredRoot(root)) => {
            choose|chain: Seq<u32>| #[trigger]
                is_path(records, id, chain) && chain.last() == root && records[root].parent_id
                    is None && !anchored(records[root].method@)
        },
        _ => Seq::empty(),
    }
}

/// **A lineage has one verdict**: the store determines the chain, or the
/// error.
pub proof fn law_lineage_is_determined(
    records: Records,
    id: u32,
    a: Result<Seq<u32>, CalibrationError>,
    b: Result<Seq<u32>, CalibrationError>,
)
    requires
        lineage_yields(records, id, a),
        lineage_yields(records, id, b),
    ensures
        a == b,
{
    if records.contains_key(id) {
        let p = lemma_evidence(records, id, a);
        let q = lemma_evidence(records, id, b);
        lemma_one_end(records, id, p, q);
    } else {
        assert(forall|chain: Seq<u32>| is_path(records, id, chain) ==> records.contains_key(
            chain[0],
        ));
    }
}

/// **Records are immutable**: what is in the store stays as it is, whatever is
/// inserted.
pub proof fn law_records_are_immutable(
    before: Records,
    record: CalibrationRecord,
    check: Result<(), EnvError>,
    result: Result<(), CalibrationError>,
    after: Records,
    id: u32,
)
    requires
        insert_yields(before, record, check, result, after),
        before.contains_key(id),
    ensures
        after.contains_key(id),
        after[id] == before[id],
{
}

/// **An insert adds one record or none.** Accepted, the record stands under its
/// id, the store holds one more, and every other id is as it was; refused, the
/// store is as it was.
pub proof fn law_insert_adds_one(
    before: Records,
    record: CalibrationRecord,
    check: Result<(), EnvError>,
    result: Result<(), CalibrationError>,
    after: Records,
)
    requires
        before.dom().finite(),
        insert_yields(before, record, check, result, after),
    ensures
        result is Err ==> after == before,
        result is Ok ==> {
            &&& after.contains_key(record.calibration_id)
            &&& after[record.calibration_id] == record
            &&& after.dom().finite()
            &&& after.dom().len() == before.dom().len() + 1
            &&& forall|id: u32|
                id != record.calibration_id ==> #[trigger] after.contains_key(id)
                    == before.contains_key(id)
            &&& forall|id: u32|
                id != record.calibration_id && #[trigger] before.contains_key(id) ==> after[id]
                    == before[id]
        },
{
}

/// A lineage stays one where records are added.
proof fn lemma_lineage_is_kept(before: Records, after: Records, id: u32, chain: Seq<u32>)
    requires
        is_lineage(before, id, chain),
        forall|k: u32| #[trigger]
            before.contains_key(k) ==> after.contains_key(k) && after[k] == before[k],
    ensures
        is_lineage(after, id, chain),
{
    assert forall|i: int| 0 <= i < chain.len() implies after.contains_key(#[trigger] chain[i]) by {
        assert(before.contains_key(chain[i]));
    }
    assert forall|i: int| 0 <= i < chain.len() - 1 implies after[#[trigger] chain[i]].parent_id
        == Some(chain[i + 1]) by {
        assert(before.contains_key(chain[i]));
    }
    assert(before.contains_key(chain[chain.len() - 1]));
}

/// **Every insert keeps the lineage anchored.** Where the lineage of every
/// record verifies, it still does after any insert, accepted or refused; so
/// it does in every store that was filled by inserts alone.
pub proof fn law_insert_keeps_lineage_anchored(
    before: Records,
    record: CalibrationRecord,
    check: Result<(), EnvError>,
    result: Result<(), CalibrationError>,
    after: Records,
)
    requires
        sound(before),
        insert_yields(before, record, check, result, after),
    ensures
        sound(after),
{
    assert forall|id: u32| #[trigger] after.contains_key(id) implies verifies(after, id) by {
        if before.contains_key(id) {
            assert(verifies(before, id));
            let chain = choose|chain: Seq<u32>| is_lineage(before, id, chain);
            lemma_lineage_is_kept(before, after, id, chain);
        } else {
            assert(id == record.calibration_id && after[id] == record);
            match record.parent_id {
                Some(parent) => {
                    assert(verifies(before, parent));
                    let rest = choose|chain: Seq<u32>| is_lineage(before, parent, chain);
                    lemma_lineage_is_kept(before, after, parent, rest);
                    let chain = seq![id] + rest;
                    assert forall|i: int, j: int|
                        0 <= i < chain.len() && 0 <= j < chain.len() && i != j implies chain[i]
                        != chain[j] by {
                        if i > 0 {
                            assert(chain[i] == rest[i - 1]);
                            assert(before.contains_key(rest[i - 1]));
                        }
                        if j > 0 {
                            assert(chain[j] == rest[j - 1]);
                            assert(before.contains_key(rest[j - 1]));
                        }
                    }
                    assert forall|i: int| 0 <= i < chain.len() implies after.contains_key(
                        #[trigger] chain[i],
                    ) by {
                        if i > 0 {
                            assert(chain[i] == rest[i - 1]);
                        }
                    }
                    assert forall|i: int| 0 <= i < chain.len() - 1 implies after[
                        #[trigger] chain[i]].parent_id == Some(chain[i + 1]) by {
                        if i > 0 {
                            assert(chain[i] == rest[i - 1]);
                            assert(chain[i + 1] == rest[i]);
                        }
                    }
                    assert(chain.last() == rest.last());
                    assert(is_lineage(after, id, chain));
                },
                None => {
                    assert(is_lineage(after, id, seq![id]));
                },
            }
        }
    }
}

/// The empty store is sound, and every record in it stands under its own id.
pub proof fn law_empty_store_is_sound()
    ensures
        sound(Map::<u32, CalibrationRecord>::empty()),
        keyed(Map::<u32, CalibrationRecord>::empty()),
{
}

/// Every record stays under its own id.
pub proof fn law_insert_keeps_ids(
    before: Records,
    record: CalibrationRecord,
    check: Result<(), EnvError>,
    result: Result<(), CalibrationError>,
    after: Records,
)
    requires
        keyed(before),
        insert_yields(before, record, check, result, after),
    ensures
        keyed(after),
{
}

/// **The active record is determined** by the store and by what has expired.
pub proof fn law_active_is_determined<E: Fn(&CalibrationRecord) -> bool>(
    records: Records,
    node_id: u64,
    modality: Seq<char>,
    expired: E,
    is_expired: spec_fn(CalibrationRecord) -> bool,
    a: Option<CalibrationRecord>,
    b: Option<CalibrationRecord>,
)
    requires
        keyed(records),
        forall|r: &CalibrationRecord, e: bool| #[trigger]
            call_ensures(expired, (r,), e) ==> e == is_expired(*r),
        active_yields(records, node_id, modality, expired, a),
        active_yields(records, node_id, modality, expired, b),
    ensures
        a == b,
{
    if a is Some {
        let i = choose|id: u32| #[trigger] records.contains_key(id) && records[id] == a->0;
        assert(records.contains_key(i));
        assert(b is Some && !newer(a->0, b->0));
    }
    if b is Some {
        let j = choose|id: u32| #[trigger] records.contains_key(id) && records[id] == b->0;
        assert(records.contains_key(j));
        assert(a is Some && !newer(b->0, a->0));
    }
}

// ---------------------------------------------------------------------------
// On the fields
// ---------------------------------------------------------------------------

/// **The active record is the newest one that is fit.** Whatever record of the
/// node and modality has not expired and has a lineage, the result was created
/// later, or at the same time under an id that is no lower; nothing else about
/// the records has a say.
pub proof fn law_active_is_the_newest<E: Fn(&CalibrationRecord) -> bool>(
    records: Records,
    node_id: u64,
    modality: Seq<char>,
    expired: E,
    result: Option<CalibrationRecord>,
    id: u32,
    chain: Seq<u32>,
)
    requires
        active_yields(records, node_id, modality, expired, result),
        records.contains_key(id),
        records[id].node_id == node_id,
        records[id].modality@ == modality,
        !call_ensures(expired, (&records[id],), true),
        lineage_yields(records, records[id].calibration_id, Ok(chain)),
    ensures
        result is Some,
        records[id].created_ns < result->0.created_ns || (records[id].created_ns
            == result->0.created_ns && records[id].calibration_id <= result->0.calibration_id),
{
    assert(is_lineage(records, records[id].calibration_id, chain));
    assert(verifies(records, records[id].calibration_id));
}

/// **The active record is fit**: it is in the store, for the node and the
/// modality, has not expired and has a lineage.
pub proof fn law_active_is_fit<E: Fn(&CalibrationRecord) -> bool>(
    records: Records,
    node_id: u64,
    modality: Seq<char>,
    expired: E,
    active: CalibrationRecord,
)
    requires
        active_yields(records, node_id, modality, expired, Some(active)),
    ensures
        exists|id: u32| #[trigger] records.contains_key(id) && records[id] == active,
        active.node_id == node_id,
        active.modality@ == modality,
        call_ensures(expired, (&active,), false),
        exists|chain: Seq<u32>| #[trigger]
            lineage_yields(records, active.calibration_id, Ok(chain)),
{
    let chain = choose|chain: Seq<u32>| is_lineage(records, active.calibration_id, chain);
    assert(lineage_yields(records, active.calibration_id, Ok(chain)));
}

/// **A lineage goes from the record to its root.** The chain that verifying
/// gives starts with the record, each next one is the parent of the one
/// before, none comes twice, and the last one has no parent and was made at the
/// factory or against an anchor.
pub proof fn law_lineage_runs_to_an_anchor(records: Records, id: u32, chain: Seq<u32>)
    requires
        lineage_yields(records, id, Ok(chain)),
    ensures
        chain.len() > 0,
        chain[0] == id,
        forall|i: int| 0 <= i < chain.len() ==> records.contains_key(#[trigger] chain[i]),
        forall|i: int|
            0 <= i < chain.len() - 1 ==> records[#[trigger] chain[i]].parent_id == Some(
                chain[i + 1],
            ),
        forall|i: int, j: int| 0 <= i < j < chain.len() ==> chain[i] != chain[j],
        records[chain.last()].parent_id is None,
        records[chain.last()].method@ == "factory"@ || records[chain.last()].method@
            == "anchor_reference"@,
{
}

/// **Where there is such a chain, verifying gives it.**
pub proof fn law_anchored_chain_is_found(
    records: Records,
    id: u32,
    chain: Seq<u32>,
    result: Result<Seq<u32>, CalibrationError>,
)
    requires
        chain.len() > 0,
        chain[0] == id,
        forall|i: int| 0 <= i < chain.len() ==> records.contains_key(#[trigger] chain[i]),
        forall|i: int|
            0 <= i < chain.len() - 1 ==> records[#[trigger] chain[i]].parent_id == Some(
                chain[i + 1],
            ),
        forall|i: int, j: int| 0 <= i < j < chain.len() ==> chain[i] != chain[j],
        records[chain.last()].parent_id is None,
        records[chain.last()].method@ == "factory"@ || records[chain.last()].method@
            == "anchor_reference"@,
        lineage_yields(records, id, result),
    ensures
        result == Ok::<Seq<u32>, CalibrationError>(chain),
{
    assert(chain.no_duplicates()) by {
        assert forall|i: int, j: int|
            0 <= i < chain.len() && 0 <= j < chain.len() && i != j implies chain[i] != chain[j] by {
            if i < j {
                assert(chain[i] != chain[j]);
            } else {
                assert(chain[j] != chain[i]);
            }
        }
    }
    assert(is_lineage(records, id, chain));
    law_lineage_is_determined(records, id, result, Ok(chain));
}

/// **Every failed lineage says what is wrong**, and it is so: the record is not
/// there; a record that is there names a parent that is not; a parent is named
/// that the chain has been at; or a root was made in some other way.
pub proof fn law_failed_lineage_is_explained(records: Records, id: u32, error: CalibrationError)
    requires
        lineage_yields(records, id, Err(error)),
    ensures
        match error {
            CalibrationError::UnknownRecord(missing) => missing == id && !records.contains_key(id),
            CalibrationError::BrokenLineage { id: child, missing_parent } => {
                &&& records.contains_key(child)
                &&& records[child].parent_id == Some(missing_parent)
                &&& !records.contains_key(missing_parent)
            },
            CalibrationError::LineageCycle(again) => {
                &&& records.contains_key(again)
                &&& exists|child: u32| #[trigger]
                    records.contains_key(child) && records[child].parent_id == Some(again)
            },
            CalibrationError::UnanchoredRoot(root) => {
                &&& records.contains_key(root)
                &&& records[root].parent_id is None
                &&& records[root].method@ != "factory"@
                &&& records[root].method@ != "anchor_reference"@
            },
            CalibrationError::Core(_) => false,
        },
        error is UnknownRecord <==> !records.contains_key(id),
        forall|chain: Seq<u32>| !#[trigger] lineage_yields(records, id, Ok(chain)),
{
    if records.contains_key(id) {
        let chain = lemma_evidence(records, id, Err(error));
        let last = chain.len() - 1;
        assert(records.contains_key(chain[last]));
        match error {
            CalibrationError::LineageCycle(again) => {
                let i = choose|i: int| 0 <= i < chain.len() && chain[i] == again;
                assert(records.contains_key(chain[i]));
            },
            _ => {},
        }
    } else {
        assert(forall|chain: Seq<u32>| is_path(records, id, chain) ==> records.contains_key(
            chain[0],
        ));
    }
    lemma_failure_is_final(records, id, error);
    assert forall|chain: Seq<u32>| !#[trigger] lineage_yields(records, id, Ok(chain)) by {
        if lineage_yields(records, id, Ok(chain)) {
            assert(is_lineage(records, id, chain));
        }
    }
}

/// **What may be inserted.** A record is taken in exactly where its check
/// passed, its id is free, and its parent is in the store or, without one, it
/// was made at the factory or against an anchor; nothing else about it has a
/// say. Each refusal says which of these fails, in that order.
pub proof fn law_insert_is_decided_by(
    before: Records,
    record: CalibrationRecord,
    check: Result<(), EnvError>,
    result: Result<(), CalibrationError>,
    after: Records,
)
    requires
        insert_yields(before, record, check, result, after),
    ensures
        result is Ok <==> {
            &&& check is Ok
            &&& !before.contains_key(record.calibration_id)
            &&& match record.parent_id {
                Some(parent) => before.contains_key(parent),
                None => record.method@ == "factory"@ || record.method@ == "anchor_reference"@,
            }
        },
        result is Ok ==> after == before.insert(record.calibration_id, record),
        result is Err ==> after == before,
        check is Err ==> result == Err::<(), CalibrationError>(
            CalibrationError::Core(check->Err_0),
        ),
        check is Ok && before.contains_key(record.calibration_id) ==> (result matches Err(
            CalibrationError::Core(EnvError::Invalid(text)),
        ) && text@ == "calibration id "@ + decimal(record.calibration_id as nat)
            + " already exists; records are immutable"@),
        check is Ok && !before.contains_key(record.calibration_id) && result is Err
            ==> result->Err_0 == match record.parent_id {
            Some(parent) => CalibrationError::BrokenLineage {
                id: record.calibration_id,
                missing_parent: parent,
            },
            None => CalibrationError::UnanchoredRoot(record.calibration_id),
        },
{
}

} // verus!
