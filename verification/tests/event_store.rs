//! The event store over an in-memory directory.

use rucelium::error::{AppendOutcome, EnvError, StoreError};
use rucelium::model::event::{EnvironmentalEvent, EventKind, EvidenceRef, Severity};
use rucelium::store::events::EventStore;
use rucelium::store::load::Repair;
use std::cell::RefCell;
use std::collections::BTreeMap;

fn event(event_id: &str, detected_ns: u64) -> EnvironmentalEvent {
    EnvironmentalEvent {
        spec_version: "1".to_string(),
        event_id: event_id.to_string(),
        biome_id: "biome/test".to_string(),
        kind: EventKind::FloodRisk,
        severity: Severity::Warning,
        modality: "water_quality".to_string(),
        geo: "{\"latitude_e7\":514000000,\"longitude_e7\":500000,\"altitude_mm\":0}".into(),
        window_start_ns: 1_000,
        window_end_ns: detected_ns,
        detected_ns,
        evidence: vec![EvidenceRef {
            node_id: 7,
            sequence: 42,
        }],
        confidence: "0.9".into(),
        message: "water level rising".to_string(),
        signature_hex: None,
        signer_pubkey_hex: None,
    }
}

/// The lines hold what tells these events apart.
fn encode(e: &EnvironmentalEvent) -> Result<Vec<u8>, String> {
    serde_json::to_vec(&(e.event_id.clone(), e.detected_ns)).map_err(|e| e.to_string())
}

fn decode(line: &str) -> Result<EnvironmentalEvent, String> {
    let (id, detected_ns): (String, u64) =
        serde_json::from_str(line).map_err(|e| e.to_string())?;
    Ok(event(&id, detected_ns))
}

#[derive(Default)]
struct Dir {
    files: RefCell<BTreeMap<String, Vec<u8>>>,
}

impl Dir {
    fn read(&self, name: &String) -> Result<Vec<u8>, StoreError> {
        match self.files.borrow().get(name) {
            Some(bytes) => Ok(bytes.clone()),
            None => Err(StoreError::Io(format!("no such file: {name}"))),
        }
    }

    fn append(&self, name: &str, bytes: &[u8]) {
        self.files
            .borrow_mut()
            .entry(name.to_string())
            .or_default()
            .extend_from_slice(bytes);
    }

    fn open(&self, max: usize) -> Result<(EventStore, Option<Repair>), StoreError> {
        let names: Vec<String> = self.files.borrow().keys().cloned().collect();
        EventStore::open(&names, max, &|n: &String| self.read(n), &decode)
    }

    fn put(&self, store: &mut EventStore, e: &EnvironmentalEvent) -> Result<AppendOutcome, StoreError> {
        assert!(store.can_append());
        store.append(e, Ok(()), 0.9f32.to_bits(), encode(e), |n: &String, v: &Vec<u8>| {
            self.append(n, v);
            Ok(())
        })
    }

    fn iter(&self, store: &EventStore) -> Vec<EnvironmentalEvent> {
        store.iter(&|n: &String| self.read(n), &decode).unwrap()
    }
}

#[test]
fn append_dedup_and_replay() {
    let dir = Dir::default();
    let mut store = dir.open(2).unwrap().0;
    let events = [
        event("evt-0001", 5_000),
        event("evt-0002", 6_000),
        event("evt-0003", 7_000),
    ];
    for e in &events {
        assert_eq!(dir.put(&mut store, e).unwrap(), AppendOutcome::Appended);
    }
    assert_eq!(
        dir.put(&mut store, &event("evt-0002", 9_999)).unwrap(),
        AppendOutcome::Duplicate
    );
    assert_eq!(store.len(), 3);
    assert!(!store.is_empty());
    assert_eq!(
        store.segments(),
        vec!["evt-000000.jsonl", "evt-000001.jsonl"]
    );
    assert_eq!(dir.iter(&store), events.to_vec());
    assert_eq!(
        store
            .recent(1, &|n: &String| dir.read(n), &decode)
            .unwrap(),
        events[2..].to_vec()
    );
}

#[test]
fn reopen_preserves_dedup_and_order() {
    let dir = Dir::default();
    let mut store = dir.open(2).unwrap().0;
    dir.put(&mut store, &event("evt-0001", 5_000)).unwrap();
    dir.put(&mut store, &event("evt-0002", 6_000)).unwrap();
    drop(store);

    let (mut reopened, repair) = dir.open(2).unwrap();
    assert_eq!(repair, None);
    assert_eq!(reopened.len(), 2);
    assert_eq!(
        dir.put(&mut reopened, &event("evt-0001", 5_000)).unwrap(),
        AppendOutcome::Duplicate
    );
    assert_eq!(
        dir.put(&mut reopened, &event("evt-0003", 7_000)).unwrap(),
        AppendOutcome::Appended
    );
    let ids: Vec<String> = dir.iter(&reopened).into_iter().map(|e| e.event_id).collect();
    assert_eq!(ids, vec!["evt-0001", "evt-0002", "evt-0003"]);
}

#[test]
fn invalid_event_is_a_core_error() {
    let dir = Dir::default();
    let mut store = dir.open(10).unwrap().0;
    let mut bad = event("evt-0001", 5_000);
    bad.evidence.clear();
    assert!(matches!(dir.put(&mut store, &bad), Err(StoreError::Core(_))));
    assert!(store.is_empty());
}

#[test]
fn torn_event_is_repaired_on_open() {
    let dir = Dir::default();
    let mut store = dir.open(10).unwrap().0;
    dir.put(&mut store, &event("evt-0001", 5_000)).unwrap();
    let clean = dir.read(&"evt-000000.jsonl".to_string()).unwrap();
    dir.append("evt-000000.jsonl", b"[\"evt-00");
    let (reopened, repair) = dir.open(10).unwrap();
    assert_eq!(reopened.len(), 1);
    assert_eq!(
        repair,
        Some(Repair {
            segment: "evt-000000.jsonl".to_string(),
            size: clean.len() as u64
        })
    );
}

#[test]
fn corrupt_event_line_is_named() {
    let dir = Dir::default();
    dir.append("evt-000000.jsonl", b"[\"a\",5000]\nnope\n");
    dir.append("evt-000001.jsonl", b"[\"b\",6000]\n");
    match dir.open(2) {
        Err(StoreError::Corrupt { segment, line, .. }) => {
            assert_eq!(segment, "evt-000000.jsonl");
            assert_eq!(line, 2);
        }
        _ => panic!("expected Corrupt"),
    }
}

#[test]
fn refused_event_write_counts_nothing() {
    let dir = Dir::default();
    let mut store = dir.open(10).unwrap().0;
    let e = event("evt-0001", 5_000);
    let refused = store.append(&e, Ok(()), 0.9f32.to_bits(), encode(&e), |_: &String, _: &Vec<u8>| {
        Err(StoreError::Io("disk full".to_string()))
    });
    assert_eq!(refused, Err(StoreError::Io("disk full".to_string())));
    assert!(store.is_empty());
    assert_eq!(dir.put(&mut store, &e).unwrap(), AppendOutcome::Appended);
}

#[test]
fn event_outside_the_map_is_refused_first() {
    let dir = Dir::default();
    let mut store = dir.open(10).unwrap().0;
    let e = event("", 5_000);
    let off = EnvError::Invalid("latitude".to_string());
    let result = store.append(
        &e,
        Err(off.clone()),
        0,
        encode(&e),
        |_: &String, _: &Vec<u8>| Ok(()),
    );
    assert_eq!(result, Err(StoreError::Core(off)));
}

#[test]
fn event_without_its_newline_is_kept_and_appended_after() {
    let dir = Dir::default();
    dir.append("evt-000000.jsonl", b"[\"evt-0001\",5000]");
    let (mut store, repair) = dir.open(10).unwrap();
    assert_eq!(repair, None);
    assert_eq!(store.len(), 1);
    assert_eq!(
        dir.put(&mut store, &event("evt-0002", 6_000)).unwrap(),
        AppendOutcome::Appended
    );
    assert_eq!(
        dir.read(&"evt-000000.jsonl".to_string()).unwrap(),
        b"[\"evt-0001\",5000]\n[\"evt-0002\",6000]\n".to_vec()
    );
    assert_eq!(
        dir.iter(&store),
        vec![event("evt-0001", 5_000), event("evt-0002", 6_000)]
    );
}

#[test]
fn an_id_that_is_stored_twice_counts_once() {
    let dir = Dir::default();
    dir.append("evt-000000.jsonl", b"[\"a\",5000]\n[\"a\",5000]\n[\"b\",6000]\n");
    let store = dir.open(10).unwrap().0;
    assert_eq!(store.len(), 2);
    assert!(!store.is_empty());
}

#[test]
fn event_with_a_confidence_out_of_range_is_refused() {
    let dir = Dir::default();
    let mut store = dir.open(10).unwrap().0;
    let e = event("evt-0001", 5_000);
    let bits = 1.5f32.to_bits();
    let result = store.append(&e, Ok(()), bits, encode(&e), |_: &String, _: &Vec<u8>| Ok(()));
    assert_eq!(
        result,
        Err(StoreError::Core(EnvError::QualityOutOfRange(bits)))
    );
    assert!(store.is_empty());
}

#[test]
fn nothing_is_written_for_a_known_or_an_invalid_event() {
    let dir = Dir::default();
    let mut store = dir.open(10).unwrap().0;
    let e = event("evt-0001", 5_000);
    dir.put(&mut store, &e).unwrap();
    let files = dir.files.borrow().clone();
    let bits = 0.9f32.to_bits();
    let no_write = |_: &String, _: &Vec<u8>| -> Result<(), StoreError> { panic!("written") };
    assert_eq!(
        store.append(&e, Ok(()), bits, encode(&e), no_write),
        Ok(AppendOutcome::Duplicate)
    );
    let nameless = event("", 5_000);
    assert_eq!(
        store.append(&nameless, Ok(()), bits, encode(&nameless), no_write),
        Err(StoreError::Core(EnvError::MissingField("event_id")))
    );
    assert_eq!(*dir.files.borrow(), files);
    assert_eq!(store.len(), 1);
}
