//! The federation exchange that knows registered keys only.

use rucelium::federation::events::sign_event;
use rucelium::federation::grouping::Reading;
use rucelium::federation::key_bus::{FederationBus, FederationError};
use rucelium::federation::summary::{Biome, Figures};
use rucelium::model::event::{EnvironmentalEvent, EventKind, EvidenceRef, Severity};
use rucelium::model::sample::EnvSample;

const SEED: [u8; 32] = *b"rumycelium-test-seed-32-bytes-ok";

fn sample(node_id: u64, sequence: u32, measured_ns: u64, value: f64) -> EnvSample {
    EnvSample {
        node_id,
        sequence,
        measured_ns,
        modality: "weather".to_string(),
        value_bits: value.to_bits(),
        quality_bits: 0.9f32.to_bits(),
        body: String::new(),
    }
}

fn fold(readings: &Vec<Reading>) -> Figures {
    let mut sum = 0.0f64;
    for (value_bits, _) in readings {
        sum += f64::from_bits(*value_bits);
    }
    let text = serde_json::to_string(&(sum / readings.len() as f64)).unwrap();
    Figures {
        mean: text.clone(),
        min: text.clone(),
        max: text,
        mean_quality: "0.9".to_string(),
    }
}

fn biome_with_data() -> Biome {
    Biome::new(
        "1".to_string(),
        "biome/test-forest".to_string(),
        SEED,
        vec![
            sample(1, 1, 1_000, 10.0),
            sample(1, 2, 2_000, 20.0),
            sample(2, 1, 3_000, 30.0),
            sample(2, 2, 9_000, 99.0),
        ],
    )
}

fn revoke_device(node_id: u64, detected_ns: u64, message: &str) -> EnvironmentalEvent {
    let mut event = EnvironmentalEvent {
        spec_version: "1".into(),
        event_id: "revoke-1".into(),
        biome_id: "biome/test-forest".into(),
        kind: EventKind::DeviceRevoked,
        severity: Severity::Warning,
        modality: "weather".into(),
        geo: "{\"latitude_e7\":0,\"longitude_e7\":0,\"altitude_mm\":0}".into(),
        window_start_ns: detected_ns,
        window_end_ns: detected_ns,
        detected_ns,
        evidence: vec![EvidenceRef {
            node_id,
            sequence: 0,
        }],
        confidence: "1.0".into(),
        message: message.into(),
        signature_hex: None,
        signer_pubkey_hex: None,
    };
    sign_event(&SEED, &mut event);
    event
}

#[test]
fn summary_bus_rejects_unknown_tampered_and_unsigned_accepts_good() {
    let b = biome_with_data();
    let s = b.summarize(0, 5_000, &fold);
    let mut bus = FederationBus::new();

    // Unregistered biome.
    assert_eq!(
        bus.publish(s.clone()),
        Err(FederationError::UnknownBiome(b.public_key_hex()))
    );

    bus.register_biome(b.public_key_hex());

    // Unsigned.
    let mut unsigned = s.clone();
    unsigned.signature_hex = None;
    unsigned.signer_pubkey_hex = None;
    assert_eq!(bus.publish(unsigned), Err(FederationError::Unsigned));

    // Tampered.
    let mut tampered = s.clone();
    tampered.stats.iter_mut().find(|e| e.0 == "weather").unwrap().1.count = 999;
    assert_eq!(bus.publish(tampered), Err(FederationError::BadSignature));

    // Good.
    bus.publish(s).unwrap();
    assert_eq!(bus.summaries().len(), 1);
}

#[test]
fn bus_publishes_events_with_same_checks() {
    let b = biome_with_data();
    let event = revoke_device(1, 10_000, "compromised");
    let mut bus = FederationBus::new();

    assert!(matches!(
        bus.publish_event(event.clone()),
        Err(FederationError::UnknownBiome(_))
    ));

    bus.register_biome(b.public_key_hex());

    let mut tampered = event.clone();
    tampered.message.push('!');
    assert_eq!(
        bus.publish_event(tampered),
        Err(FederationError::BadSignature)
    );

    let mut unsigned = event.clone();
    unsigned.signature_hex = None;
    assert_eq!(
        bus.publish_event(unsigned),
        Err(FederationError::Unsigned)
    );

    bus.publish_event(event).unwrap();
    assert_eq!(bus.events().len(), 1);
}

#[test]
fn summary_federation_error_displays() {
    assert_eq!(FederationError::Unsigned.message(), "payload is unsigned");
    assert!(FederationError::UnknownBiome("ab".into())
        .message()
        .contains("ab"));
    assert!(!FederationError::BadSignature.message().is_empty());
}

#[test]
fn key_error_messages_are_exact() {
    assert_eq!(
        FederationError::UnknownBiome("ab".into()).message(),
        "signer is not a registered biome: ab"
    );
    assert_eq!(
        FederationError::BadSignature.message(),
        "signature verification failed"
    );
}

#[test]
fn plain_exchange_takes_the_same_summary_again() {
    let b = biome_with_data();
    let mut bus = FederationBus::new();
    bus.register_biome(b.public_key_hex());
    bus.publish(b.summarize(0, 5_000, &fold)).unwrap();
    bus.publish(b.summarize(0, 5_000, &fold)).unwrap();
    assert_eq!(bus.summaries().len(), 2);
}
