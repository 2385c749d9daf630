//! The observation store over an in-memory directory.

use rucelium::error::{AppendOutcome, EnvError, StoreError};
use rucelium::model::sample::EnvSample;
use rucelium::store::load::Repair;
use rucelium::store::observations::{ObservationStore, StoreStats};
use std::cell::RefCell;
use std::collections::BTreeMap;

type Line = (u64, u32, u64, String, u64, u32, String);

fn sample(node_id: u64, sequence: u32, measured_ns: u64, value: f64) -> EnvSample {
    EnvSample {
        node_id,
        sequence,
        measured_ns,
        modality: "weather".to_string(),
        value_bits: value.to_bits(),
        quality_bits: 0.9f32.to_bits(),
        body: "{\"unit\":\"Cel\"}".to_string(),
    }
}

fn encode(s: &EnvSample) -> Result<Vec<u8>, String> {
    let line: Line = (
        s.node_id,
        s.sequence,
        s.measured_ns,
        s.modality.clone(),
        s.value_bits,
        s.quality_bits,
        s.body.clone(),
    );
    serde_json::to_vec(&line).map_err(|e| e.to_string())
}

fn decode(line: &str) -> Result<EnvSample, String> {
    let (node_id, sequence, measured_ns, modality, value_bits, quality_bits, body): Line =
        serde_json::from_str(line).map_err(|e| e.to_string())?;
    Ok(EnvSample {
        node_id,
        sequence,
        measured_ns,
        modality,
        value_bits,
        quality_bits,
        body,
    })
}

/// What the sample check of the data model says of a quality score.
fn check(s: &EnvSample) -> Result<(), EnvError> {
    let quality = f32::from_bits(s.quality_bits);
    if (0.0..=1.0).contains(&quality) {
        Ok(())
    } else {
        Err(EnvError::QualityOutOfRange(s.quality_bits))
    }
}

#[derive(Default)]
struct Dir {
    files: RefCell<BTreeMap<String, Vec<u8>>>,
    /// The dedup keys as saved before the last retention pass.
    kept: RefCell<Vec<(u64, u32)>>,
}

impl Dir {
    fn names(&self) -> Vec<String> {
        self.files.borrow().keys().cloned().collect()
    }

    fn read(&self, name: &String) -> Result<Vec<u8>, StoreError> {
        match self.files.borrow().get(name) {
            Some(bytes) => Ok(bytes.clone()),
            None => Err(StoreError::Io(format!("no such file: {name}"))),
        }
    }

    fn len(&self, name: &str) -> usize {
        self.files.borrow()[name].len()
    }

    fn append(&self, name: &str, bytes: &[u8]) {
        self.files
            .borrow_mut()
            .entry(name.to_string())
            .or_default()
            .extend_from_slice(bytes);
    }

    fn try_open(&self, max: usize) -> Result<(ObservationStore, Option<Repair>), StoreError> {
        let names = self.names();
        let kept = self.kept.borrow();
        ObservationStore::open(&names, max, &kept, &|n: &String| self.read(n), &decode)
    }

    /// Open, and cut a torn tail as asked.
    fn open(&self, max: usize) -> ObservationStore {
        let (store, repair) = self.try_open(max).unwrap();
        if let Some(repair) = repair {
            let mut files = self.files.borrow_mut();
            files
                .get_mut(&repair.segment)
                .unwrap()
                .truncate(repair.size as usize);
        }
        store
    }

    fn put(&self, store: &mut ObservationStore, s: &EnvSample) -> Result<AppendOutcome, StoreError> {
        let line = encode(s);
        assert!(store.can_append(line.as_ref().map(|l| l.len()).unwrap_or(0)));
        store.append(s, check(s), line, |n: &String, v: &Vec<u8>| {
            self.append(n, v);
            Ok(())
        })
    }

    fn iter(&self, store: &ObservationStore) -> Vec<EnvSample> {
        store.iter(&|n: &String| self.read(n), &decode).unwrap()
    }

    fn retain(
        &self,
        store: &mut ObservationStore,
        now_ns: u64,
        retention_ns: u64,
    ) -> Result<u64, StoreError> {
        *self.kept.borrow_mut() = store.seen_keys();
        store.enforce_retention(now_ns, retention_ns, &|n: &String| {
            self.files.borrow_mut().remove(n);
            Ok(())
        })
    }
}

#[test]
fn append_iter_round_trips_in_order_and_rejects_duplicates() {
    let dir = Dir::default();
    let mut store = dir.open(100);
    let samples = [
        sample(1, 1, 1_000, 20.0),
        sample(2, 1, 2_000, 21.0),
        sample(1, 2, 3_000, 22.0),
    ];
    for s in &samples {
        assert_eq!(dir.put(&mut store, s).unwrap(), AppendOutcome::Appended);
    }
    // Same key, different payload: still a duplicate.
    assert_eq!(
        dir.put(&mut store, &sample(1, 1, 9_000, 99.0)).unwrap(),
        AppendOutcome::Duplicate
    );
    assert_eq!(store.len(), 3);
    assert!(!store.is_empty());
    assert_eq!(dir.iter(&store), samples.to_vec());
    assert_eq!(
        store
            .recent(2, &|n: &String| dir.read(n), &decode)
            .unwrap(),
        samples[1..].to_vec()
    );
    let stats = store.stats();
    assert_eq!(stats.appended_total, 3);
    assert_eq!(stats.duplicates_total, 1);
}

#[test]
fn invalid_sample_is_a_core_error() {
    let dir = Dir::default();
    let mut store = dir.open(100);
    let mut bad = sample(1, 1, 1_000, 20.0);
    bad.quality_bits = 2.0f32.to_bits();
    assert!(matches!(dir.put(&mut store, &bad), Err(StoreError::Core(_))));
    assert!(store.is_empty());
}

#[test]
fn segments_roll_over_at_max_records() {
    let dir = Dir::default();
    let mut store = dir.open(3);
    for seq in 1..=7 {
        dir.put(&mut store, &sample(1, seq, u64::from(seq) * 1_000, 20.0))
            .unwrap();
    }
    assert_eq!(
        store.segments(),
        vec!["obs-000000.jsonl", "obs-000001.jsonl", "obs-000002.jsonl"]
    );
    let infos = store.segment_infos();
    assert_eq!(
        infos.iter().map(|i| i.records).collect::<Vec<_>>(),
        vec![3, 3, 1]
    );
    assert_eq!(infos[0].min_measured_ns, 1_000);
    assert_eq!(infos[0].max_measured_ns, 3_000);
    assert_eq!(infos[2].min_measured_ns, 7_000);
    assert_eq!(infos[2].max_measured_ns, 7_000);
    // Replay stays ordered across segment boundaries.
    let seqs: Vec<u32> = dir.iter(&store).iter().map(|s| s.sequence).collect();
    assert_eq!(seqs, vec![1, 2, 3, 4, 5, 6, 7]);
}

#[test]
fn reopen_recovers_index_and_metadata() {
    let dir = Dir::default();
    let mut store = dir.open(3);
    for seq in 1..=5 {
        dir.put(&mut store, &sample(1, seq, u64::from(seq) * 1_000, 20.0))
            .unwrap();
    }
    let len = store.len();
    let segments = store.segments();
    let infos = store.segment_infos();
    drop(store);

    let mut reopened = dir.open(3);
    assert_eq!(reopened.len(), len);
    assert_eq!(reopened.segments(), segments);
    assert_eq!(reopened.segment_infos(), infos);
    // Dedup survives restart.
    assert_eq!(
        dir.put(&mut reopened, &sample(1, 3, 3_000, 20.0)).unwrap(),
        AppendOutcome::Duplicate
    );
    // New keys still flow, into the correct next segment.
    assert_eq!(
        dir.put(&mut reopened, &sample(1, 6, 6_000, 20.0)).unwrap(),
        AppendOutcome::Appended
    );
    assert_eq!(reopened.len(), 6);
    assert_eq!(
        reopened.segments(),
        vec!["obs-000000.jsonl", "obs-000001.jsonl"]
    );
}

#[test]
fn torn_tail_is_truncated_on_open() {
    let dir = Dir::default();
    let mut store = dir.open(100);
    for seq in 1..=5 {
        dir.put(&mut store, &sample(1, seq, u64::from(seq) * 1_000, 20.0))
            .unwrap();
    }
    drop(store);
    // Simulate a crash mid-write: garbage bytes, no trailing newline.
    let path = "obs-000000.jsonl";
    let clean_len = dir.len(path);
    dir.append(path, b"{\"half");

    let mut reopened = dir.open(100);
    assert_eq!(reopened.len(), 5);
    assert_eq!(dir.iter(&reopened).len(), 5);
    // The file was truncated back to the last complete record.
    assert_eq!(dir.len(path), clean_len);
    let text = String::from_utf8(dir.read(&path.to_string()).unwrap()).unwrap();
    assert!(!text.contains("half"));
    // The store keeps working after repair.
    assert_eq!(
        dir.put(&mut reopened, &sample(1, 6, 6_000, 20.0)).unwrap(),
        AppendOutcome::Appended
    );
    assert_eq!(dir.iter(&reopened).len(), 6);
}

#[test]
fn corrupt_middle_line_names_segment_and_line() {
    let dir = Dir::default();
    let mut store = dir.open(100);
    for seq in 1..=3 {
        dir.put(&mut store, &sample(1, seq, u64::from(seq) * 1_000, 20.0))
            .unwrap();
    }
    drop(store);
    let path = "obs-000000.jsonl".to_string();
    let mut lines: Vec<String> = String::from_utf8(dir.read(&path).unwrap())
        .unwrap()
        .lines()
        .map(String::from)
        .collect();
    lines[1] = "not json".into();
    dir.files
        .borrow_mut()
        .insert(path, (lines.join("\n") + "\n").into_bytes());

    match dir.try_open(100) {
        Err(StoreError::Corrupt { segment, line, .. }) => {
            assert_eq!(segment, "obs-000000.jsonl");
            assert_eq!(line, 2);
        }
        Err(other) => panic!("expected Corrupt, got {:?}", other),
        Ok(_) => panic!("expected Corrupt, got a store"),
    }
}

#[test]
fn retention_deletes_expired_segments_but_never_the_last() {
    let dir = Dir::default();
    let mut store = dir.open(2);
    // seg0: 1000, 2000 | seg1: 5000, 6000 | seg2: 9000
    for (seq, measured) in [(1, 1_000), (2, 2_000), (3, 5_000), (4, 6_000), (5, 9_000)] {
        dir.put(&mut store, &sample(1, seq, measured, 20.0)).unwrap();
    }
    assert_eq!(store.segments().len(), 3);

    // 2000 + 1000 <= 3000: only seg0 has expired.
    assert_eq!(dir.retain(&mut store, 3_000, 1_000).unwrap(), 2);
    assert_eq!(
        store.segments(),
        vec!["obs-000001.jsonl", "obs-000002.jsonl"]
    );
    let measured: Vec<u64> = dir.iter(&store).iter().map(|s| s.measured_ns).collect();
    assert_eq!(measured, vec![5_000, 6_000, 9_000]);
    assert!(!dir.names().contains(&"obs-000000.jsonl".to_string()));

    // Far future: everything expired, but the last segment survives.
    assert_eq!(dir.retain(&mut store, u64::MAX, 0).unwrap(), 2);
    assert_eq!(store.segments(), vec!["obs-000002.jsonl"]);
    assert_eq!(store.len(), 1);
    assert_eq!(store.stats().retention_deleted_total, 4);

    // Dedup keys outlive retention: an expired sample is still a dup.
    assert_eq!(
        dir.put(&mut store, &sample(1, 1, 1_000, 20.0)).unwrap(),
        AppendOutcome::Duplicate
    );
}

#[test]
fn stats_serialize_to_json() {
    let dir = Dir::default();
    let mut store = dir.open(100);
    dir.put(&mut store, &sample(1, 1, 1_000, 20.0)).unwrap();
    dir.put(&mut store, &sample(1, 1, 1_000, 20.0)).unwrap();
    let stats = store.stats();
    let mut object = serde_json::Map::new();
    object.insert("records".to_string(), stats.records.into());
    object.insert("segments".to_string(), stats.segments.into());
    object.insert("appended_total".to_string(), stats.appended_total.into());
    object.insert("duplicates_total".to_string(), stats.duplicates_total.into());
    object.insert(
        "retention_deleted_total".to_string(),
        stats.retention_deleted_total.into(),
    );
    object.insert("bytes_on_disk".to_string(), stats.bytes_on_disk.into());
    let json = serde_json::Value::Object(object);
    assert_eq!(json["records"], 1);
    assert_eq!(json["segments"], 1);
    assert_eq!(json["appended_total"], 1);
    assert_eq!(json["duplicates_total"], 1);
    assert_eq!(json["retention_deleted_total"], 0);
    assert!(json["bytes_on_disk"].as_u64().unwrap() > 0);
    assert_eq!(stats.bytes_on_disk, dir.len("obs-000000.jsonl") as u64);
}

#[test]
fn zero_records_per_segment_counts_as_one() {
    let dir = Dir::default();
    let mut store = dir.open(0);
    for seq in 1..=3 {
        dir.put(&mut store, &sample(1, seq, 1_000, 20.0)).unwrap();
    }
    assert_eq!(store.segments().len(), 3);
}

#[test]
fn fresh_directory_opens_as_an_empty_store() {
    let dir = Dir::default();
    dir.append("notes.txt", b"not a segment");
    let store = dir.open(10);
    assert!(store.is_empty());
    assert!(store.segments().is_empty());
    assert_eq!(
        store.stats(),
        StoreStats {
            records: 0,
            segments: 0,
            appended_total: 0,
            duplicates_total: 0,
            retention_deleted_total: 0,
            bytes_on_disk: 0,
        }
    );
}

#[test]
fn refused_write_counts_nothing_and_may_be_retried() {
    let dir = Dir::default();
    let mut store = dir.open(10);
    let s = sample(1, 1, 1_000, 20.0);
    let refused = store.append(&s, Ok(()), encode(&s), |_: &String, _: &Vec<u8>| {
        Err(StoreError::Io("disk full".to_string()))
    });
    assert_eq!(refused, Err(StoreError::Io("disk full".to_string())));
    assert_eq!(store.len(), 0);
    assert_eq!(store.stats().appended_total, 0);
    assert_eq!(dir.put(&mut store, &s).unwrap(), AppendOutcome::Appended);
    assert_eq!(store.segments(), vec!["obs-000000.jsonl"]);
    assert_eq!(dir.iter(&store), vec![s]);
}

#[test]
fn sample_that_does_not_encode_is_a_core_error() {
    let dir = Dir::default();
    let mut store = dir.open(10);
    let s = sample(1, 1, 1_000, 20.0);
    let result = store.append(
        &s,
        Ok(()),
        Err("no encoding".to_string()),
        |_: &String, _: &Vec<u8>| panic!("nothing to write"),
    );
    assert_eq!(
        result,
        Err(StoreError::Core(EnvError::Invalid("no encoding".to_string())))
    );
    assert!(store.is_empty());
}

#[test]
fn retention_stops_at_a_file_that_cannot_be_removed() {
    let dir = Dir::default();
    let mut store = dir.open(1);
    for seq in 1..=4 {
        dir.put(&mut store, &sample(1, seq, u64::from(seq), 20.0))
            .unwrap();
    }
    let result = store.enforce_retention(1_000, 0, &|n: &String| {
        if n == "obs-000001.jsonl" {
            Err(StoreError::Io("busy".to_string()))
        } else {
            Ok(())
        }
    });
    assert_eq!(result, Err(StoreError::Io("busy".to_string())));
    assert_eq!(
        store.segments(),
        vec!["obs-000001.jsonl", "obs-000002.jsonl", "obs-000003.jsonl"]
    );
    // The file that went is counted.
    assert_eq!(store.len(), 3);
    assert_eq!(store.stats().retention_deleted_total, 1);
}

#[test]
fn nothing_expires_past_the_end_of_time() {
    let dir = Dir::default();
    let mut store = dir.open(1);
    dir.put(&mut store, &sample(1, 1, 1_000, 20.0)).unwrap();
    dir.put(&mut store, &sample(1, 2, 2_000, 20.0)).unwrap();
    // 1_000 + u64::MAX lies after every time there is.
    assert_eq!(dir.retain(&mut store, u64::MAX, u64::MAX).unwrap(), 0);
    assert_eq!(store.segments().len(), 2);
    // 1_000 + (u64::MAX - 1_000) is the very last one.
    assert_eq!(
        dir.retain(&mut store, u64::MAX - 1, u64::MAX - 1_000).unwrap(),
        0
    );
    assert_eq!(dir.retain(&mut store, u64::MAX, u64::MAX - 1_000).unwrap(), 1);
    assert_eq!(store.segments(), vec!["obs-000001.jsonl"]);
}

#[test]
fn expired_sample_is_a_duplicate_after_a_restart() {
    let dir = Dir::default();
    let mut store = dir.open(1);
    dir.put(&mut store, &sample(1, 1, 1_000, 20.0)).unwrap();
    dir.put(&mut store, &sample(1, 2, 9_000, 20.0)).unwrap();
    assert_eq!(dir.retain(&mut store, 5_000, 1_000).unwrap(), 1);
    dir.put(&mut store, &sample(1, 3, 9_500, 20.0)).unwrap();
    let mut keys = store.seen_keys();
    keys.sort();
    assert_eq!(keys, vec![(1, 1), (1, 2), (1, 3)]);
    drop(store);

    let mut reopened = dir.open(1);
    assert_eq!(reopened.len(), 2);
    let mut again = reopened.seen_keys();
    again.sort();
    assert_eq!(again, keys);
    for (seq, measured) in [(1, 1_000), (2, 9_000), (3, 9_500)] {
        assert_eq!(
            dir.put(&mut reopened, &sample(1, seq, measured, 20.0)).unwrap(),
            AppendOutcome::Duplicate
        );
    }
    assert_eq!(
        dir.put(&mut reopened, &sample(1, 4, 9_900, 20.0)).unwrap(),
        AppendOutcome::Appended
    );
}

#[test]
fn record_without_its_newline_is_kept_and_appended_after() {
    let a = sample(1, 1, 1_000, 20.0);
    let b = sample(1, 2, 2_000, 21.0);
    let dir = Dir::default();
    dir.append("obs-000000.jsonl", &encode(&a).unwrap());

    let (mut store, repair) = dir.try_open(100).unwrap();
    assert_eq!(repair, None);
    assert_eq!(store.len(), 1);
    assert_eq!(dir.put(&mut store, &b).unwrap(), AppendOutcome::Appended);
    assert_eq!(dir.iter(&store), vec![a.clone(), b.clone()]);
    assert_eq!(
        store.stats().bytes_on_disk,
        dir.len("obs-000000.jsonl") as u64
    );
    // One newline closes the first record, and it does so once.
    let c = sample(1, 3, 3_000, 22.0);
    dir.put(&mut store, &c).unwrap();
    let text = String::from_utf8(dir.read(&"obs-000000.jsonl".to_string()).unwrap()).unwrap();
    assert_eq!(text.matches('\n').count(), 3);
    drop(store);
    let reopened = dir.open(100);
    assert_eq!(dir.iter(&reopened), vec![a, b, c]);
}

#[test]
fn full_segment_without_its_newline_is_left_as_it_is() {
    let a = sample(1, 1, 1_000, 20.0);
    let b = sample(1, 2, 2_000, 21.0);
    let dir = Dir::default();
    dir.append("obs-000000.jsonl", &encode(&a).unwrap());
    let size = dir.len("obs-000000.jsonl");
    let mut store = dir.open(1);
    dir.put(&mut store, &b).unwrap();
    assert_eq!(dir.len("obs-000000.jsonl"), size);
    assert_eq!(
        dir.read(&"obs-000001.jsonl".to_string()).unwrap()[0],
        encode(&b).unwrap()[0]
    );
    assert_eq!(dir.iter(&store), vec![a, b]);
}

#[test]
fn write_torn_after_the_closing_newline_is_cut_back_to_it() {
    let a = sample(1, 1, 1_000, 20.0);
    let dir = Dir::default();
    let path = "obs-000000.jsonl";
    dir.append(path, &encode(&a).unwrap());
    let size = dir.len(path);
    dir.append(path, b"\n[1,2,20");
    let (store, repair) = dir.try_open(100).unwrap();
    assert_eq!(
        repair,
        Some(Repair {
            segment: path.to_string(),
            size: size as u64 + 1
        })
    );
    assert_eq!(store.len(), 1);
    assert_eq!(store.stats().bytes_on_disk, size as u64 + 1);
}

#[test]
fn refused_write_leaves_the_newline_still_to_come() {
    let a = sample(1, 1, 1_000, 20.0);
    let b = sample(1, 2, 2_000, 21.0);
    let dir = Dir::default();
    dir.append("obs-000000.jsonl", &encode(&a).unwrap());
    let mut store = dir.open(100);
    let refused = store.append(&b, Ok(()), encode(&b), |_: &String, _: &Vec<u8>| {
        Err(StoreError::Io("disk full".to_string()))
    });
    assert!(refused.is_err());
    dir.put(&mut store, &b).unwrap();
    assert_eq!(dir.iter(&store), vec![a, b]);
}

#[test]
fn a_key_that_is_stored_twice_counts_once() {
    let a = sample(1, 1, 1_000, 20.0);
    let b = sample(1, 2, 2_000, 21.0);
    let dir = Dir::default();
    for (name, s) in [("obs-000000.jsonl", &a), ("obs-000000.jsonl", &a), ("obs-000001.jsonl", &a)] {
        dir.append(name, &encode(s).unwrap());
        dir.append(name, b"\n");
    }
    let mut store = dir.open(2);
    assert_eq!(store.len(), 1);
    assert_eq!(store.stats().records, 1);
    // The segments hold the lines they hold.
    let lines: Vec<usize> = store.segment_infos().iter().map(|i| i.records).collect();
    assert_eq!(lines, vec![2, 1]);
    dir.put(&mut store, &b).unwrap();
    assert_eq!(store.len(), 2);
    // The other copy is still there once the first file is gone.
    assert_eq!(dir.retain(&mut store, 5_000, 1_000).unwrap(), 2);
    assert_eq!(store.len(), 2);
}

#[test]
fn unreadable_segment_is_reported_by_replay() {
    let dir = Dir::default();
    let mut store = dir.open(1);
    dir.put(&mut store, &sample(1, 1, 1_000, 20.0)).unwrap();
    dir.files.borrow_mut().clear();
    let result = store.iter(&|n: &String| dir.read(n), &decode);
    assert_eq!(
        result,
        Err(StoreError::Io("no such file: obs-000000.jsonl".to_string()))
    );
}

#[test]
fn nothing_is_written_for_a_known_or_an_invalid_sample() {
    let dir = Dir::default();
    let mut store = dir.open(10);
    let s = sample(1, 1, 1_000, 20.0);
    dir.put(&mut store, &s).unwrap();
    let files = dir.files.borrow().clone();
    let no_write = |_: &String, _: &Vec<u8>| -> Result<(), StoreError> { panic!("written") };
    assert_eq!(
        store.append(&s, Ok(()), encode(&s), no_write),
        Ok(AppendOutcome::Duplicate)
    );
    let fresh = sample(1, 2, 1_000, 20.0);
    let fault = EnvError::Invalid("unit".to_string());
    assert_eq!(
        store.append(&fresh, Err(fault.clone()), encode(&fresh), no_write),
        Err(StoreError::Core(fault))
    );
    assert_eq!(*dir.files.borrow(), files);
    assert_eq!(store.stats().duplicates_total, 1);
    assert_eq!(store.stats().appended_total, 1);
}

#[test]
fn retention_asks_for_expired_closed_segments_only() {
    let dir = Dir::default();
    let mut store = dir.open(1);
    // Expired, live, expired, and the last one.
    for (seq, measured) in [(1, 1_000), (2, 9_000), (3, 2_000), (4, 500)] {
        dir.put(&mut store, &sample(1, seq, measured, 20.0)).unwrap();
    }
    let asked = RefCell::new(Vec::new());
    let deleted = store.enforce_retention(5_000, 1_000, &|n: &String| {
        asked.borrow_mut().push(n.clone());
        Ok(())
    });
    assert_eq!(deleted, Ok(2));
    assert_eq!(
        *asked.borrow(),
        vec!["obs-000000.jsonl".to_string(), "obs-000002.jsonl".to_string()]
    );
    // After one that cannot be removed, no other is asked for.
    let mut store = dir.open(1);
    asked.borrow_mut().clear();
    let stopped = store.enforce_retention(5_000, 1_000, &|n: &String| {
        asked.borrow_mut().push(n.clone());
        Err(StoreError::Io("busy".to_string()))
    });
    assert!(stopped.is_err());
    assert_eq!(*asked.borrow(), vec!["obs-000000.jsonl".to_string()]);
}

#[test]
fn counters_and_records_add_up_over_a_run() {
    let dir = Dir::default();
    let mut store = dir.open(2);
    for seq in 1..=3 {
        dir.put(&mut store, &sample(1, seq, u64::from(seq) * 1_000, 20.0))
            .unwrap();
    }
    drop(store);
    let mut store = dir.open(2);
    let at_open = store.len() as u64;
    assert_eq!(at_open, 3);
    let (mut appended, mut duplicates, mut deleted) = (0u64, 0u64, 0u64);
    for (seq, measured) in [(3, 3_000), (4, 4_000), (4, 4_000), (5, 9_000), (1, 1_000), (6, 9_500)] {
        match dir.put(&mut store, &sample(1, seq, measured, 20.0)).unwrap() {
            AppendOutcome::Appended => appended += 1,
            AppendOutcome::Duplicate => duplicates += 1,
        }
        deleted += dir.retain(&mut store, measured, 2_500).unwrap();
    }
    let refused = sample(1, 7, 9_900, 20.0);
    store
        .append(&refused, Ok(()), encode(&refused), |_: &String, _: &Vec<u8>| {
            Err(StoreError::Io("disk full".to_string()))
        })
        .unwrap_err();
    let stats = store.stats();
    assert_eq!((appended, duplicates), (3, 3));
    assert!(deleted > 0);
    assert_eq!(stats.appended_total, appended);
    assert_eq!(stats.duplicates_total, duplicates);
    assert_eq!(stats.retention_deleted_total, deleted);
    assert_eq!(stats.records + deleted, at_open + appended);
    assert_eq!(stats.records, store.len() as u64);
    let lines: usize = store.segment_infos().iter().map(|i| i.records).sum();
    assert_eq!(lines, store.len());
    let sizes: usize = dir.files.borrow().values().map(Vec::len).sum();
    assert_eq!(stats.bytes_on_disk, sizes as u64);
}
