//! The event model.

use rucelium::error::EnvError;
use rucelium::model::event::{
    DataClass, EnvironmentalEvent, EventKind, EvidenceRef, Severity,
};

/// The bits of the number that a confidence stands for.
fn bits(e: &EnvironmentalEvent) -> u32 {
    let confidence: f32 = serde_json::from_str(&e.confidence).unwrap();
    confidence.to_bits()
}

fn event() -> EnvironmentalEvent {
    EnvironmentalEvent {
        spec_version: "1".into(),
        event_id: "evt-0001".into(),
        biome_id: "biome/thames-estuary".into(),
        kind: EventKind::FloodRisk,
        severity: Severity::Warning,
        modality: "water_quality".into(),
        geo: "{\"latitude_e7\":514000000,\"longitude_e7\":500000,\"altitude_mm\":0}".into(),
        window_start_ns: 1_000,
        window_end_ns: 5_000,
        detected_ns: 5_100,
        evidence: vec![EvidenceRef {
            node_id: 7,
            sequence: 42,
        }],
        confidence: "0.9".into(),
        message: "water level rising across 3 nodes".into(),
        signature_hex: None,
        signer_pubkey_hex: None,
    }
}

#[test]
fn valid_event_round_trips() {
    let e = event();
    e.validate(Ok(()), bits(&e)).unwrap();
    assert!(matches!(e.data_class(), DataClass::FederatedEvent));
    let j = serde_json::to_string(&(
        e.event_id.clone(),
        e.window_start_ns,
        e.window_end_ns,
        serde_json::from_str::<f32>(&e.confidence).unwrap(),
        e.message.clone(),
    ))
    .unwrap();
    let (event_id, window_start_ns, window_end_ns, confidence, message): (
        String,
        u64,
        u64,
        f32,
        String,
    ) = serde_json::from_str(&j).unwrap();
    let back = EnvironmentalEvent {
        event_id,
        window_start_ns,
        window_end_ns,
        confidence: serde_json::to_string(&confidence).unwrap(),
        message,
        ..event()
    };
    assert_eq!(e, back);
}

#[test]
fn severity_orders() {
    assert!(Severity::Advisory < Severity::Watch);
    assert!(Severity::Watch < Severity::Warning);
    assert!(Severity::Warning < Severity::Critical);
}

#[test]
fn empty_evidence_rejected() {
    let mut e = event();
    e.evidence.clear();
    assert!(matches!(
        e.validate(Ok(()), bits(&e)),
        Err(EnvError::MissingField("evidence"))
    ));
}

#[test]
fn each_structural_fault_has_its_error() {
    let mut e = event();
    e.event_id.clear();
    assert_eq!(e.validate(Ok(()), bits(&e)), Err(EnvError::MissingField("event_id")));

    let mut e = event();
    e.biome_id.clear();
    assert_eq!(e.validate(Ok(()), bits(&e)), Err(EnvError::MissingField("biome_id")));

    let mut e = event();
    e.window_end_ns = 999;
    assert_eq!(
        e.validate(Ok(()), bits(&e)),
        Err(EnvError::TimeInverted {
            measured_ns: 1_000,
            received_ns: 999
        })
    );

    let off = EnvError::Invalid("latitude".to_string());
    assert_eq!(event().validate(Err(off.clone()), 0), Err(off));
}

#[test]
fn confidence_must_be_a_unit_score() {
    for good in [0.0f32, -0.0, f32::MIN_POSITIVE, 0.5, 1.0] {
        let mut e = event();
        e.confidence = serde_json::to_string(&good).unwrap();
        assert_eq!(e.validate(Ok(()), bits(&e)), Ok(()));
    }
    for bad in [
        -f32::MIN_POSITIVE,
        -0.5,
        1.0 + f32::EPSILON,
        2.0,
        f32::INFINITY,
        f32::NEG_INFINITY,
        f32::NAN,
        -f32::NAN,
    ] {
        assert_eq!(
            event().validate(Ok(()), bad.to_bits()),
            Err(EnvError::QualityOutOfRange(bad.to_bits()))
        );
    }
}
