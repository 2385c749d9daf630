//! The outage buffer.

use rucelium::federation::buffer::OutageBuffer;
use rucelium::model::sample::EnvSample;

fn sample(node_id: u64, sequence: u32, measured_ns: u64, value: f64) -> EnvSample {
    EnvSample {
        node_id,
        sequence,
        measured_ns,
        modality: "weather".to_string(),
        value_bits: value.to_bits(),
        quality_bits: 0.9f32.to_bits(),
        body: String::new(),
    }
}

/// Save the buffer and make it again.
fn restart(buffer: &OutageBuffer) -> OutageBuffer {
    OutageBuffer::from_parts(buffer.samples().to_vec(), &buffer.seen_keys())
}

#[test]
fn push_drops_duplicates() {
    let mut buf = OutageBuffer::new();
    assert!(buf.push(sample(1, 1, 1_000, 20.0)));
    assert!(buf.push(sample(1, 2, 2_000, 20.5)));
    // Same (node_id, sequence), even with different payload: dropped.
    assert!(!buf.push(sample(1, 1, 9_000, 99.0)));
    assert_eq!(buf.len(), 2);
    assert!(!buf.is_empty());
}

#[test]
fn drain_is_ordered_and_empties() {
    let mut buf = OutageBuffer::new();
    buf.push(sample(2, 5, 5_000, 1.0));
    buf.push(sample(1, 9, 4_000, 2.0));
    buf.push(sample(1, 3, 3_000, 3.0));
    let drained = buf.drain();
    let keys: Vec<(u64, u32)> = drained.iter().map(EnvSample::dedup_key).collect();
    assert_eq!(keys, vec![(1, 3), (1, 9), (2, 5)]);
    assert!(buf.is_empty());
    assert_eq!(buf.len(), 0);
}

#[test]
fn dedup_state_survives_restart() {
    let mut buf = OutageBuffer::new();
    buf.push(sample(1, 1, 1_000, 20.0));
    buf.push(sample(1, 2, 2_000, 21.0));

    // Gateway restarts.
    let mut restored = restart(&buf);
    assert_eq!(restored.len(), 2);
    // Replayed wire packets with already-buffered keys are dropped.
    assert!(!restored.push(sample(1, 1, 1_000, 20.0)));
    assert!(!restored.push(sample(1, 2, 2_000, 21.0)));
    // New keys still flow.
    assert!(restored.push(sample(1, 3, 3_000, 22.0)));

    // Drain after restore contains zero duplicates.
    let drained = restored.drain();
    let mut keys: Vec<(u64, u32)> = drained.iter().map(EnvSample::dedup_key).collect();
    let n = keys.len();
    keys.dedup();
    assert_eq!(keys.len(), n);
    assert_eq!(keys, vec![(1, 1), (1, 2), (1, 3)]);

    // Even after draining, previously seen keys stay duplicates.
    assert!(!restored.push(sample(1, 3, 3_000, 22.0)));
}

#[test]
fn drain_agrees_with_a_stable_sort() {
    let mut samples: Vec<EnvSample> = Vec::new();
    let mut state = 12_345u64;
    for i in 0..200u64 {
        state = state.wrapping_mul(6_364_136_223_846_793_005).wrapping_add(1);
        let node = (state >> 33) % 7;
        let sequence = ((state >> 40) % 11) as u32;
        samples.push(sample(node, sequence, i, i as f64));
    }
    // A saved buffer may hold a key twice; such samples keep their order.
    let mut buf = OutageBuffer::from_parts(samples.clone(), &Vec::new());
    let drained = buf.drain();
    samples.sort_by_key(EnvSample::dedup_key);
    assert_eq!(drained, samples);
}

#[test]
fn index_is_saved_without_repetition() {
    let mut buf = OutageBuffer::new();
    buf.push(sample(2, 1, 1_000, 20.0));
    buf.push(sample(1, 7, 1_000, 20.0));
    buf.push(sample(2, 1, 1_000, 20.0));
    buf.drain();
    let mut keys = buf.seen_keys();
    keys.sort();
    assert_eq!(keys, vec![(1, 7), (2, 1)]);
    let mut again = restart(&buf);
    assert!(again.is_empty());
    assert!(!again.push(sample(1, 7, 1_000, 20.0)));
}
