//! The identity-bound federation exchange.

use rucelium::federation::bus::{FederationBus, FederationError};
use rucelium::federation::events::sign_event;
use rucelium::federation::grouping::Reading;
use rucelium::federation::summary::{verify_summary, Biome, Figures, RegionalSummary};
use rucelium::model::event::{EnvironmentalEvent, EventKind, EvidenceRef, Severity};
use rucelium::model::sample::EnvSample;

const SEED: [u8; 32] = *b"rumycelium-test-seed-32-bytes-ok";
const OTHER_SEED: [u8; 32] = *b"rucelium-other-seed-32-bytes-ok!";
const ROTATED_SEED: [u8; 32] = *b"rucelium-rotated-seed-32-bytes-!";
const BIOME_ID: &str = "biome/test-forest";

fn sample(node_id: u64, sequence: u32, measured_ns: u64, value: f64) -> EnvSample {
    EnvSample {
        node_id,
        sequence,
        measured_ns,
        modality: "weather".to_string(),
        value_bits: value.to_bits(),
        quality_bits: 0.875f32.to_bits(),
        body: String::new(),
    }
}

fn fold(readings: &Vec<Reading>) -> Figures {
    let mut sum = 0.0f64;
    for (value_bits, _) in readings {
        sum += f64::from_bits(*value_bits);
    }
    let text = serde_json::to_string(&(sum / readings.len() as f64)).unwrap();
    Figures {
        mean: text.clone(),
        min: text.clone(),
        max: text,
        mean_quality: "0.875".to_string(),
    }
}

fn biome(id: &str, seed: [u8; 32], observations: Vec<EnvSample>) -> Biome {
    Biome::new("1".to_string(), id.to_string(), seed, observations)
}

fn biome_with_data() -> Biome {
    biome(
        BIOME_ID,
        SEED,
        vec![
            sample(1, 1, 1_000, 10.0),
            sample(1, 2, 2_000, 20.0),
            sample(2, 1, 3_000, 30.0),
            sample(2, 2, 9_000, 99.0),
        ],
    )
}

fn summarize(b: &Biome, start_ns: u64, end_ns: u64) -> RegionalSummary {
    b.summarize(start_ns, end_ns, &fold)
}

fn register(
    bus: &mut FederationBus,
    id: &str,
    key: String,
    epoch: u32,
) -> Result<(), FederationError> {
    bus.register_biome(id.to_string(), key, epoch)
}

/// A registered bus for `biome_with_data`'s biome at epoch 1.
fn registered_bus(b: &Biome) -> FederationBus {
    let mut bus = FederationBus::new();
    register(&mut bus, BIOME_ID, b.public_key_hex(), 1).unwrap();
    bus
}

fn signed(mut event: EnvironmentalEvent, seed: &[u8; 32]) -> EnvironmentalEvent {
    sign_event(seed, &mut event);
    event
}

fn revocation(biome_id: &str, node_id: u64, detected_ns: u64, message: &str) -> EnvironmentalEvent {
    EnvironmentalEvent {
        spec_version: "1".into(),
        event_id: "revoke-1".into(),
        biome_id: biome_id.into(),
        kind: EventKind::DeviceRevoked,
        severity: Severity::Warning,
        modality: "weather".into(),
        geo: "{\"latitude_e7\":0,\"longitude_e7\":0,\"altitude_mm\":0}".into(),
        window_start_ns: detected_ns,
        window_end_ns: detected_ns,
        detected_ns,
        evidence: vec![EvidenceRef {
            node_id,
            sequence: 0,
        }],
        confidence: "1.0".into(),
        message: message.into(),
        signature_hex: None,
        signer_pubkey_hex: None,
    }
}

#[test]
fn bus_rejects_unknown_tampered_and_unsigned_accepts_good() {
    let b = biome_with_data();
    let s = summarize(&b, 0, 5_000);
    let mut bus = FederationBus::new();

    // Unregistered biome id.
    assert_eq!(
        bus.publish(s.clone()),
        Err(FederationError::UnknownBiome(BIOME_ID.into()))
    );

    register(&mut bus, BIOME_ID, b.public_key_hex(), 1).unwrap();

    // Unsigned.
    let mut unsigned = s.clone();
    unsigned.signature_hex = None;
    unsigned.signer_pubkey_hex = None;
    assert_eq!(bus.publish(unsigned), Err(FederationError::Unsigned));

    // Tampered.
    let mut tampered = s.clone();
    tampered.stats.iter_mut().find(|e| e.0 == "weather").unwrap().1.count = 999;
    assert_eq!(bus.publish(tampered), Err(FederationError::BadSignature));

    // Good.
    bus.publish(s).unwrap();
    assert_eq!(bus.summaries().len(), 1);
}

#[test]
fn registered_key_claiming_another_biome_id_is_rejected() {
    let b = biome_with_data();
    let mut bus = registered_bus(&b);
    // A second, honestly registered biome with a different key.
    let other = biome("biome/other", OTHER_SEED, Vec::new());
    register(&mut bus, "biome/other", other.public_key_hex(), 1).unwrap();

    // Our registered key signs a summary claiming biome/other's identity. The
    // signature verifies and the key is registered, but not for that id.
    let mut cross = summarize(&b, 0, 5_000);
    cross.biome_id = "biome/other".into();
    b.sign_summary(&mut cross);
    assert!(verify_summary(&cross));
    assert_eq!(
        bus.publish(cross),
        Err(FederationError::IdentityMismatch {
            biome_id: "biome/other".into()
        })
    );
    assert!(bus.summaries().is_empty());
}

#[test]
fn duplicate_summary_window_is_rejected() {
    let b = biome_with_data();
    let mut bus = registered_bus(&b);
    let s = summarize(&b, 0, 5_000);
    bus.publish(s.clone()).unwrap();
    // Exact replay.
    assert_eq!(bus.publish(s), Err(FederationError::DuplicateSummary));
    // Same window, freshly re-signed: still a duplicate.
    let mut again = summarize(&b, 0, 5_000);
    b.sign_summary(&mut again);
    assert_eq!(bus.publish(again), Err(FederationError::DuplicateSummary));
    // A different window is fine.
    bus.publish(summarize(&b, 5_000, 10_000)).unwrap();
    assert_eq!(bus.summaries().len(), 2);
}

#[test]
fn key_rotation_replaces_key_and_rejects_stale_epochs() {
    let b = biome_with_data();
    let mut bus = registered_bus(&b);
    let old_key_summary = summarize(&b, 0, 5_000);

    // Rotate: a new biome key at a strictly higher epoch.
    let rotated = biome(BIOME_ID, ROTATED_SEED, Vec::new());
    register(&mut bus, BIOME_ID, rotated.public_key_hex(), 2).unwrap();

    // The old key's summary is now an identity mismatch.
    assert_eq!(
        bus.publish(old_key_summary),
        Err(FederationError::IdentityMismatch {
            biome_id: BIOME_ID.into()
        })
    );
    // The rotated key publishes fine.
    bus.publish(summarize(&rotated, 0, 5_000)).unwrap();

    // Rolling back to the old key at a lower or equal epoch fails.
    assert_eq!(
        register(&mut bus, BIOME_ID, b.public_key_hex(), 1),
        Err(FederationError::StaleKeyEpoch {
            biome_id: BIOME_ID.into(),
            epoch: 1
        })
    );
    assert_eq!(
        register(&mut bus, BIOME_ID, b.public_key_hex(), 2),
        Err(FederationError::StaleKeyEpoch {
            biome_id: BIOME_ID.into(),
            epoch: 2
        })
    );
    // Idempotent re-registration of the current key is a no-op.
    register(&mut bus, BIOME_ID, rotated.public_key_hex(), 2).unwrap();
}

#[test]
fn bus_publishes_events_with_identity_binding_and_event_dedup() {
    let b = biome_with_data();
    let event = signed(revocation(BIOME_ID, 1, 10_000, "compromised"), &SEED);
    let mut bus = FederationBus::new();

    assert_eq!(
        bus.publish_event(event.clone()),
        Err(FederationError::UnknownBiome(BIOME_ID.into()))
    );

    register(&mut bus, BIOME_ID, b.public_key_hex(), 1).unwrap();

    let mut tampered = event.clone();
    tampered.message.push('!');
    assert_eq!(
        bus.publish_event(tampered),
        Err(FederationError::BadSignature)
    );

    let mut unsigned = event.clone();
    unsigned.signature_hex = None;
    assert_eq!(
        bus.publish_event(unsigned),
        Err(FederationError::Unsigned)
    );

    // Identity binding: the same registered key claiming another registered
    // biome's id is rejected.
    let other = biome("biome/other", OTHER_SEED, Vec::new());
    register(&mut bus, "biome/other", other.public_key_hex(), 1).unwrap();
    let mut cross = event.clone();
    cross.biome_id = "biome/other".into();
    let cross = signed(cross, &SEED);
    assert_eq!(
        bus.publish_event(cross),
        Err(FederationError::IdentityMismatch {
            biome_id: "biome/other".into()
        })
    );

    bus.publish_event(event.clone()).unwrap();
    assert_eq!(bus.events().len(), 1);

    // Replay by event_id is rejected.
    assert_eq!(
        bus.publish_event(event),
        Err(FederationError::DuplicateEvent)
    );
    assert_eq!(bus.events().len(), 1);
}

#[test]
fn federation_error_displays() {
    assert_eq!(FederationError::Unsigned.message(), "payload is unsigned");
    assert!(FederationError::UnknownBiome("biome/x".into())
        .message()
        .contains("biome/x"));
    assert!(!FederationError::BadSignature.message().is_empty());
    assert!(FederationError::IdentityMismatch {
        biome_id: "biome/x".into()
    }
    .message()
    .contains("biome/x"));
    assert!(FederationError::StaleKeyEpoch {
        biome_id: "biome/x".into(),
        epoch: 3
    }
    .message()
    .contains('3'));
    assert!(!FederationError::DuplicateSummary.message().is_empty());
    assert!(!FederationError::DuplicateEvent.message().is_empty());
    assert!(FederationError::BadEnvelope("boom".into())
        .message()
        .contains("boom"));
}

#[test]
fn error_messages_are_exact() {
    assert_eq!(
        FederationError::BadSignature.message(),
        "signature verification failed"
    );
    assert_eq!(
        FederationError::UnknownBiome("b".into()).message(),
        "not a registered biome: b"
    );
    assert_eq!(
        FederationError::IdentityMismatch {
            biome_id: "b".into()
        }
        .message(),
        "signer key is not the registered key for b"
    );
    assert_eq!(
        FederationError::StaleKeyEpoch {
            biome_id: "b".into(),
            epoch: 4_294_967_295
        }
        .message(),
        "stale key epoch 4294967295 for b"
    );
    assert_eq!(
        FederationError::DuplicateSummary.message(),
        "summary for this biome and window already accepted"
    );
    assert_eq!(
        FederationError::DuplicateEvent.message(),
        "event with this event_id already accepted"
    );
    assert_eq!(
        FederationError::BadEnvelope("boom".into()).message(),
        "envelope decode failed: boom"
    );
}

#[test]
fn windows_are_told_apart_by_biome_start_and_end() {
    let b = biome_with_data();
    let mut bus = registered_bus(&b);
    for (start, end) in [(1, 23), (12, 3), (1, 2), (0, 23)] {
        bus.publish(summarize(&b, start, end)).unwrap();
    }
    assert_eq!(bus.summaries().len(), 4);
    assert_eq!(bus.summaries()[1].window_start_ns, 12);
    // A digit in the id cannot be taken for one of the window.
    let tricky = biome("3:biome/test-forest", OTHER_SEED, Vec::new());
    register(&mut bus, "3:biome/test-forest", tricky.public_key_hex(), 1).unwrap();
    bus.publish(summarize(&tricky, 1, 2)).unwrap();
    assert_eq!(bus.summaries().len(), 5);
}

#[test]
fn registering_the_same_key_higher_raises_the_epoch() {
    let b = biome_with_data();
    let mut bus = registered_bus(&b);
    register(&mut bus, BIOME_ID, b.public_key_hex(), 5).unwrap();
    assert_eq!(
        register(&mut bus, BIOME_ID, "00".to_string(), 5),
        Err(FederationError::StaleKeyEpoch {
            biome_id: BIOME_ID.into(),
            epoch: 5
        })
    );
    // A lower epoch with the current key changes nothing.
    register(&mut bus, BIOME_ID, b.public_key_hex(), 2).unwrap();
    assert!(register(&mut bus, BIOME_ID, "00".to_string(), 4).is_err());
    bus.publish(summarize(&b, 0, 5_000)).unwrap();
}
