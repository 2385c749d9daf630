//! The calibration store.

use rucelium::calibration::store::{CalibrationError, CalibrationRecord, CalibrationStore};
use rucelium::error::EnvError;

const Q16_ONE: i32 = 65_536;

fn record(id: u32, method: &str, parent_id: Option<u32>, created_ns: u64) -> CalibrationRecord {
    CalibrationRecord {
        calibration_id: id,
        node_id: 7,
        modality: "weather".into(),
        method: method.into(),
        reference_station: Some("anchor-01".into()),
        parent_id,
        created_ns,
        expires_ns: created_ns + 1_000_000,
        scale_q16: Q16_ONE,
        offset_q16: 0,
        uncertainty_q16: Q16_ONE / 10,
        data_hash: "sha256:cal".into(),
        signature_hex: None,
        signer_pubkey_hex: None,
    }
}

/// What the record check of the data model says of a zero scale.
fn check(r: &CalibrationRecord) -> Result<(), EnvError> {
    if r.scale_q16 == 0 {
        Err(EnvError::Invalid("scale is zero".to_string()))
    } else {
        Ok(())
    }
}

fn insert(store: &mut CalibrationStore, r: CalibrationRecord) -> Result<(), CalibrationError> {
    let verdict = check(&r);
    store.insert(r, verdict)
}

fn active(store: &CalibrationStore, node_id: u64, modality: &str, now_ns: u64) -> Option<u32> {
    store
        .active_for(node_id, modality, &|r: &CalibrationRecord| now_ns >= r.expires_ns)
        .map(|r| r.calibration_id)
}

#[test]
fn anchor_rooted_chain_inserts_and_verifies_root_last() {
    let mut store = CalibrationStore::new();
    insert(&mut store, record(1, "anchor_reference", None, 1_000)).unwrap();
    insert(&mut store, record(2, "colocation", Some(1), 2_000)).unwrap();
    insert(&mut store, record(3, "colocation", Some(2), 3_000)).unwrap();
    assert_eq!(store.len(), 3);
    assert!(!store.is_empty());
    assert_eq!(store.verify_lineage(3).unwrap(), vec![3, 2, 1]);
    assert_eq!(store.verify_lineage(1).unwrap(), vec![1]);
}

#[test]
fn missing_parent_is_rejected_at_insert() {
    let mut store = CalibrationStore::new();
    let err = insert(&mut store, record(2, "colocation", Some(99), 2_000)).unwrap_err();
    assert_eq!(
        err,
        CalibrationError::BrokenLineage {
            id: 2,
            missing_parent: 99
        }
    );
    assert!(store.get(2).is_none());
}

#[test]
fn unanchored_root_is_rejected() {
    let mut store = CalibrationStore::new();
    let err = insert(&mut store, record(1, "colocation", None, 1_000)).unwrap_err();
    assert_eq!(err, CalibrationError::UnanchoredRoot(1));
    // Factory roots are fine.
    insert(&mut store, record(1, "factory", None, 1_000)).unwrap();
}

#[test]
fn invalid_record_and_duplicate_id_are_rejected() {
    let mut store = CalibrationStore::new();
    let mut bad = record(1, "factory", None, 1_000);
    bad.scale_q16 = 0;
    assert!(matches!(
        insert(&mut store, bad),
        Err(CalibrationError::Core(_))
    ));
    insert(&mut store, record(1, "factory", None, 1_000)).unwrap();
    assert!(matches!(
        insert(&mut store, record(1, "factory", None, 2_000)),
        Err(CalibrationError::Core(_))
    ));
}

#[test]
fn unknown_record_and_forged_dangling_parent() {
    let mut store = CalibrationStore::new();
    assert_eq!(
        store.verify_lineage(42).unwrap_err(),
        CalibrationError::UnknownRecord(42)
    );
    // Forge a record whose parent vanished (insert would refuse this).
    store.insert_unchecked(record(5, "colocation", Some(4), 1_000));
    assert_eq!(
        store.verify_lineage(5).unwrap_err(),
        CalibrationError::BrokenLineage {
            id: 5,
            missing_parent: 4
        }
    );
}

#[test]
fn forged_cycle_reports_lineage_cycle() {
    let mut store = CalibrationStore::new();
    store.insert_unchecked(record(10, "colocation", Some(11), 1_000));
    store.insert_unchecked(record(11, "colocation", Some(10), 1_000));
    assert_eq!(
        store.verify_lineage(10).unwrap_err(),
        CalibrationError::LineageCycle(10)
    );
    // Self-loop is also a cycle.
    store.insert_unchecked(record(12, "colocation", Some(12), 1_000));
    assert_eq!(
        store.verify_lineage(12).unwrap_err(),
        CalibrationError::LineageCycle(12)
    );
}

#[test]
fn forged_unanchored_root_fails_verification() {
    let mut store = CalibrationStore::new();
    store.insert_unchecked(record(20, "colocation", None, 1_000));
    store.insert_unchecked(record(21, "colocation", Some(20), 2_000));
    assert_eq!(
        store.verify_lineage(21).unwrap_err(),
        CalibrationError::UnanchoredRoot(20)
    );
}

#[test]
fn active_for_picks_newest_non_expired_with_valid_lineage() {
    let mut store = CalibrationStore::new();
    // Old but long-lived.
    insert(&mut store, record(1, "anchor_reference", None, 1_000)).unwrap();
    // Newest, but expires early.
    let mut short = record(2, "colocation", Some(1), 3_000);
    short.expires_ns = 4_000;
    insert(&mut store, short).unwrap();
    // Middle age, long-lived.
    insert(&mut store, record(3, "colocation", Some(1), 2_000)).unwrap();

    // Before record 2 expires it wins (newest created_ns).
    assert_eq!(active(&store, 7, "weather", 3_500), Some(2));
    // After it expires, record 3 (created 2_000) beats record 1.
    assert_eq!(active(&store, 7, "weather", 5_000), Some(3));
    // Wrong node or modality: nothing.
    assert_eq!(active(&store, 8, "weather", 3_500), None);
    assert_eq!(active(&store, 7, "soil_moisture", 3_500), None);
    // Broken lineage disqualifies even a fresh record.
    store.insert_unchecked(record(9, "colocation", Some(999), 4_000));
    assert_eq!(active(&store, 7, "weather", 4_500), Some(3));
}

#[test]
fn taken_id_is_named_and_the_record_stays() {
    let mut store = CalibrationStore::new();
    insert(&mut store, record(17, "factory", None, 1_000)).unwrap();
    assert_eq!(
        insert(&mut store, record(17, "factory", None, 2_000)),
        Err(CalibrationError::Core(EnvError::Invalid(
            "calibration id 17 already exists; records are immutable".to_string()
        )))
    );
    assert_eq!(store.get(17).unwrap().created_ns, 1_000);
    assert_eq!(store.len(), 1);
}

#[test]
fn an_insert_adds_one_record_or_none() {
    let mut store = CalibrationStore::new();
    assert!(store.is_empty());
    insert(&mut store, record(1, "factory", None, 1_000)).unwrap();
    assert_eq!(store.len(), 1);
    insert(&mut store, record(1, "factory", None, 2_000)).unwrap_err();
    insert(&mut store, record(2, "colocation", Some(9), 2_000)).unwrap_err();
    assert_eq!(store.len(), 1);
    insert(&mut store, record(2, "colocation", Some(1), 2_000)).unwrap();
    assert_eq!(store.len(), 2);
    assert_eq!(store.get(1), Some(&record(1, "factory", None, 1_000)));
}

#[test]
fn same_age_is_decided_by_the_higher_id() {
    let mut store = CalibrationStore::new();
    insert(&mut store, record(4, "factory", None, 1_000)).unwrap();
    insert(&mut store, record(9, "factory", None, 1_000)).unwrap();
    insert(&mut store, record(5, "factory", None, 1_000)).unwrap();
    assert_eq!(active(&store, 7, "weather", 1_000), Some(9));
}

#[test]
fn inserted_records_always_verify() {
    let mut store = CalibrationStore::new();
    assert!(store.is_empty());
    insert(&mut store, record(1, "factory", None, 1_000)).unwrap();
    for id in 2..50u32 {
        insert(&mut store, record(id, "colocation", Some(id / 2), 1_000)).unwrap();
    }
    for id in 1..50u32 {
        let chain = store.verify_lineage(id).unwrap();
        assert_eq!(chain.first(), Some(&id));
        assert_eq!(chain.last(), Some(&1));
    }
}
