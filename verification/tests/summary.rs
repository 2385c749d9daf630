//! Signatures and regional summaries.

use rucelium::federation::events::{canonical_event_bytes, sign_event, verify_event};
use rucelium::federation::grouping::Reading;
use rucelium::federation::sig::{
    hex_decode, hex_encode, public_key_hex_of, sign_detached, verify_detached,
};
use rucelium::federation::summary::{
    canonical_summary_bytes, verify_summary, Biome, Figures, ModalityStats, RegionalSummary,
};
use rucelium::model::event::{EnvironmentalEvent, EventKind, EvidenceRef, Severity};
use rucelium::model::sample::EnvSample;

const SEED: [u8; 32] = *b"rumycelium-test-seed-32-bytes-ok";
const SPEC_VERSION: &str = "rumycelium/0.1";
const BIOME_ID: &str = "biome/test-forest";

fn sample_of(
    modality: &str,
    node_id: u64,
    sequence: u32,
    measured_ns: u64,
    value: f64,
    quality: f32,
) -> EnvSample {
    EnvSample {
        node_id,
        sequence,
        measured_ns,
        modality: modality.to_string(),
        value_bits: value.to_bits(),
        quality_bits: quality.to_bits(),
        body: String::new(),
    }
}

fn number(x: f64) -> String {
    serde_json::to_string(&x).unwrap()
}

fn value(text: &str) -> f64 {
    serde_json::from_str(text).unwrap()
}

/// Plain sums in order of arrival.
fn fold(readings: &Vec<Reading>) -> Figures {
    let mut sum = 0.0f64;
    let mut min = f64::INFINITY;
    let mut max = f64::NEG_INFINITY;
    let mut quality_sum = 0.0f64;
    for (value_bits, quality_bits) in readings {
        let value = f64::from_bits(*value_bits);
        sum += value;
        min = min.min(value);
        max = max.max(value);
        quality_sum += f64::from(f32::from_bits(*quality_bits));
    }
    let n = readings.len() as f64;
    Figures {
        mean: number(sum / n),
        min: number(min),
        max: number(max),
        mean_quality: number(quality_sum / n),
    }
}

fn biome_with_quality(quality: f32) -> Biome {
    let observations = vec![
        sample_of("weather", 1, 1, 1_000, 10.0, quality),
        sample_of("weather", 1, 2, 2_000, 20.0, quality),
        sample_of("weather", 2, 1, 3_000, 30.0, quality),
        sample_of("weather", 2, 2, 9_000, 99.0, quality), // outside [0, 5000) window
    ];
    Biome::new(SPEC_VERSION.to_string(), BIOME_ID.to_string(), SEED, observations)
}

fn biome_with_data() -> Biome {
    biome_with_quality(0.9)
}

fn weather(s: &RegionalSummary) -> &ModalityStats {
    &s.stats.iter().find(|e| e.0 == "weather").unwrap().1
}

fn weather_mut(s: &mut RegionalSummary) -> &mut ModalityStats {
    &mut s.stats.iter_mut().find(|e| e.0 == "weather").unwrap().1
}

#[test]
fn summarize_produces_exact_stats() {
    let b = biome_with_data();
    let s = b.summarize(0, 5_000, &fold);
    assert_eq!(s.spec_version, SPEC_VERSION);
    assert_eq!(s.biome_id, "biome/test-forest");
    let w = weather(&s);
    assert_eq!(w.count, 3);
    assert!((value(&w.mean) - 20.0).abs() < 1e-12);
    assert!((value(&w.min) - 10.0).abs() < f64::EPSILON);
    assert!((value(&w.max) - 30.0).abs() < f64::EPSILON);
    assert!((value(&w.mean_quality) - f64::from(0.9_f32)).abs() < 1e-12);
    // Window is half-open: measured_ns = 9_000 excluded.
    assert_eq!(s.stats.len(), 1);
}

#[test]
fn summarize_produces_exact_stats_over_sealed_observations() {
    let b = biome_with_quality(0.875);
    assert_eq!(b.observations().len(), 4);
    let s = b.summarize(0, 5_000, &fold);
    assert_eq!(s.spec_version, SPEC_VERSION);
    assert_eq!(s.biome_id, BIOME_ID);
    let w = weather(&s);
    assert_eq!(w.count, 3);
    assert!((value(&w.mean) - 20.0).abs() < 1e-12);
    assert!((value(&w.min) - 10.0).abs() < f64::EPSILON);
    assert!((value(&w.max) - 30.0).abs() < f64::EPSILON);
    // 0x7000 / 0x8000 in Q0.15 = 0.875 exactly.
    assert!((value(&w.mean_quality) - 0.875).abs() < 1e-12);
    // Window is half-open: measured_ns = 9_000 excluded.
    assert_eq!(s.stats.len(), 1);
}

fn sign_verify_and_tamper(b: &Biome) {
    let s = b.summarize(0, 5_000, &fold);
    assert!(verify_summary(&s));

    // A copy with the same fields verifies too.
    let back = s.clone();
    assert!(verify_summary(&back));

    // Tampered mean fails.
    let mut t = s.clone();
    weather_mut(&mut t).mean = number(21.0);
    assert!(!verify_summary(&t));

    // Tampered window fails.
    let mut t = s.clone();
    t.window_end_ns += 1;
    assert!(!verify_summary(&t));

    // Unsigned fails.
    let mut t = s.clone();
    t.signature_hex = None;
    assert!(!verify_summary(&t));
}

#[test]
fn summary_sign_verify_round_trip_and_tamper() {
    sign_verify_and_tamper(&biome_with_data());
}

#[test]
fn summary_summary_sign_verify_round_trip_and_tamper() {
    sign_verify_and_tamper(&biome_with_quality(0.875));
}

#[test]
fn every_field_is_covered_by_the_signature() {
    let s = biome_with_data().summarize(0, 5_000, &fold);
    let mut tampered: Vec<RegionalSummary> = Vec::new();
    for _ in 0..9 {
        tampered.push(s.clone());
    }
    tampered[0].spec_version.push('x');
    tampered[1].biome_id.push('x');
    tampered[2].window_start_ns += 1;
    tampered[3].stats[0].0.push('x');
    tampered[4].stats[0].1.count += 1;
    tampered[5].stats[0].1.min = number(10.5);
    tampered[6].stats[0].1.max = number(30.5);
    tampered[7].stats[0].1.mean_quality = number(0.5);
    tampered[8].stats.clear();
    for t in &tampered {
        assert_ne!(canonical_summary_bytes(t), canonical_summary_bytes(&s));
        assert!(!verify_summary(t));
    }
    // The signature fields are not part of what is signed.
    let mut bare = s.clone();
    bare.signature_hex = None;
    bare.signer_pubkey_hex = None;
    assert_eq!(canonical_summary_bytes(&bare), canonical_summary_bytes(&s));
}

#[test]
fn canonical_bytes_are_compact_json_in_field_order() {
    let s = RegionalSummary {
        spec_version: "1".to_string(),
        biome_id: "b\"\\\n\u{1}\u{7f}é".to_string(),
        window_start_ns: 5,
        window_end_ns: u64::MAX,
        stats: vec![
            (
                "air".to_string(),
                ModalityStats {
                    count: 3,
                    mean: number(20.0),
                    min: number(-1.5),
                    max: number(1234.5),
                    mean_quality: number(0.25),
                },
            ),
            (
                "water".to_string(),
                ModalityStats {
                    count: 0,
                    mean: "null".to_string(),
                    min: number(0.0),
                    max: number(0.0),
                    mean_quality: number(1.0),
                },
            ),
        ],
        signature_hex: Some("aa".to_string()),
        signer_pubkey_hex: None,
    };
    let expected = concat_text(&[
        "{\"spec_version\":\"1\",\"biome_id\":\"b\\\"\\\\\\n\\u0001\u{7f}é\",",
        "\"window_start_ns\":5,\"window_end_ns\":18446744073709551615,\"stats\":{",
        "\"air\":{\"count\":3,\"mean\":20.0,\"min\":-1.5,\"max\":1234.5,\"mean_quality\":0.25},",
        "\"water\":{\"count\":0,\"mean\":null,\"min\":0.0,\"max\":0.0,\"mean_quality\":1.0}}}",
    ]);
    let bytes = canonical_summary_bytes(&s);
    assert_eq!(String::from_utf8(bytes.clone()).unwrap(), expected);
    // The text is JSON that reads back as what it says.
    let read: serde_json::Value = serde_json::from_slice(&bytes).unwrap();
    assert_eq!(read["biome_id"], s.biome_id.as_str());
    assert_eq!(read["stats"]["air"]["count"], 3);
}

fn concat_text(parts: &[&str]) -> String {
    parts.concat()
}

#[test]
fn every_control_character_stands_as_json_has_it() {
    for code in 0u32..0x100 {
        let c = char::from_u32(code).unwrap();
        let s = RegionalSummary {
            spec_version: c.to_string(),
            biome_id: String::new(),
            window_start_ns: 0,
            window_end_ns: 0,
            stats: Vec::new(),
            signature_hex: None,
            signer_pubkey_hex: None,
        };
        let read: serde_json::Value =
            serde_json::from_slice(&canonical_summary_bytes(&s)).unwrap();
        assert_eq!(read["spec_version"], c.to_string().as_str());
    }
}

#[test]
fn modalities_come_in_order_and_count_their_own_window() {
    let observations = vec![
        sample_of("weather", 1, 1, 10, 1.0, 1.0),
        sample_of("air", 1, 2, 19, 2.0, 1.0),
        sample_of("weather", 1, 3, 20, 3.0, 1.0),
        sample_of("soil", 1, 4, 9, 4.0, 1.0),
        sample_of("weather", 1, 5, 12, 5.0, 1.0),
        sample_of("airborne", 1, 6, 15, 6.0, 1.0),
    ];
    let b = Biome::new("1".to_string(), "b".to_string(), SEED, observations);
    let s = b.summarize(10, 20, &fold);
    let names: Vec<&str> = s.stats.iter().map(|e| e.0.as_str()).collect();
    assert_eq!(names, vec!["air", "airborne", "weather"]);
    let counts: Vec<u64> = s.stats.iter().map(|e| e.1.count).collect();
    assert_eq!(counts, vec![1, 1, 2]);
    assert_eq!(s.stats[2].1.mean, number(3.0));
    assert!(b.summarize(10, 10, &fold).stats.is_empty());
}

#[test]
fn a_window_that_is_split_adds_up() {
    let observations = vec![
        sample_of("soil", 1, 1, 1_000, 5.0, 0.9),
        sample_of("weather", 1, 2, 2_500, 20.0, 0.9),
        sample_of("weather", 2, 1, 1_500, 30.0, 0.9),
        sample_of("weather", 2, 2, 2_000, 10.0, 0.9), // where the parts meet
        sample_of("air", 3, 1, 2_900, 7.0, 0.9),
    ];
    let b = Biome::new(SPEC_VERSION.to_string(), BIOME_ID.to_string(), SEED, observations);
    let whole = b.summarize(1_000, 3_000, &fold);
    let left = b.summarize(1_000, 2_000, &fold);
    let right = b.summarize(2_000, 3_000, &fold);
    let names = |s: &RegionalSummary| -> Vec<String> {
        s.stats.iter().map(|e| e.0.clone()).collect()
    };
    assert_eq!(names(&whole), vec!["air", "soil", "weather"]);
    assert_eq!(names(&left), vec!["soil", "weather"]);
    assert_eq!(names(&right), vec!["air", "weather"]);
    assert_eq!(weather(&whole).count, 3);
    assert_eq!(weather(&left).count, 1);
    assert_eq!(weather(&right).count, 2);
    assert_eq!(weather(&whole).min, weather(&right).min);
    assert_eq!(weather(&whole).max, weather(&left).max);
    assert!(b.summarize(2_000, 2_000, &fold).stats.is_empty());
}

#[test]
fn hex_goes_both_ways() {
    let all: Vec<u8> = (0..=255).collect();
    let text = hex_encode(&all);
    assert_eq!(&text[..8], "00010203");
    assert_eq!(&text[504..], "fcfdfeff");
    assert_eq!(hex_decode(&text), Some(all.clone()));
    assert_eq!(hex_decode(&text.to_uppercase()), Some(all));
    assert_eq!(hex_decode(""), Some(Vec::new()));
}

#[test]
fn malformed_hex_does_not_decode() {
    for bad in ["a", "abc", "g0", "0g", "+f", "0x", " 1", "é", "aéb", "a\u{1F600}b"] {
        assert_eq!(hex_decode(bad), None);
    }
}

#[test]
fn signatures_follow_the_published_vectors() {
    // The first two test vectors of RFC 8032.
    let seed: [u8; 32] =
        hex_decode("9d61b19deffd5a60ba844af492ec2cc44449c5697b326919703bac031cae7f60")
            .unwrap()
            .try_into()
            .unwrap();
    let public = "d75a980182b10ab7d54bfed3c964073a0ee172f3daa62325af021a68f707511a";
    let signature = concat_text(&[
        "e5564300c360ac729086e2cc806e828a84877f1eb8e5d974d873e06522490155",
        "5fb8821590a33bacc61e39701cf9b46bd25bf5f0595bbe24655141438e7a100b",
    ]);
    assert_eq!(public_key_hex_of(&seed), public);
    assert_eq!(sign_detached(&seed, b""), signature);
    assert!(verify_detached(public, &signature, b""));
    assert!(!verify_detached(public, &signature, b"x"));

    let seed: [u8; 32] =
        hex_decode("4ccd089b28ff96da9db6c346ec114e0f5b8a319f35aba624da8cf6ed4fb8a6fb")
            .unwrap()
            .try_into()
            .unwrap();
    let public = "3d4017c3e843895a92b70aa74d1b7ebc9c982ccf2ec4968cc0cd55f12af4660c";
    let signature = concat_text(&[
        "92a009a9f0d4cab8720e820b5f642540a2b27b5416503f8fb3762223ebdb69da",
        "085ac1e43e15996e458f3613d0f11d8c387b2eaeb4302aeeb00d291612bb0c00",
    ]);
    assert_eq!(public_key_hex_of(&seed), public);
    assert_eq!(sign_detached(&seed, &[0x72]), signature);
    assert!(verify_detached(public, &signature, &[0x72]));
}

#[test]
fn malformed_keys_and_signatures_fail_verification() {
    let public = public_key_hex_of(&SEED);
    let signature = sign_detached(&SEED, b"msg");
    assert!(verify_detached(&public, &signature, b"msg"));
    assert!(!verify_detached("", &signature, b"msg"));
    assert!(!verify_detached(&public[..62], &signature, b"msg"));
    assert!(!verify_detached(&public, "", b"msg"));
    assert!(!verify_detached(&public, &signature[..126], b"msg"));
    assert!(!verify_detached("zz", &signature, b"msg"));
    assert!(!verify_detached(&public, "aéb", b"msg"));
    // Bytes that are no point on the curve.
    let no_key = hex_encode(&[2u8; 32]);
    assert!(!verify_detached(&no_key, &signature, b"msg"));
    // Another key.
    assert!(!verify_detached(&public_key_hex_of(&[7u8; 32]), &signature, b"msg"));
}

/// The pieces in one.
fn concat_lines(pieces: &[&str]) -> Vec<u8> {
    pieces.concat().into_bytes()
}

fn small_event() -> EnvironmentalEvent {
    EnvironmentalEvent {
        spec_version: "1".into(),
        event_id: "evt-1".into(),
        biome_id: "b".into(),
        kind: EventKind::Anomaly,
        severity: Severity::Watch,
        modality: "weather".into(),
        geo: "{\"latitude_e7\":0,\"longitude_e7\":0,\"altitude_mm\":0}".into(),
        window_start_ns: 0,
        window_end_ns: 1,
        detected_ns: 1,
        evidence: vec![EvidenceRef {
            node_id: 1,
            sequence: 1,
        }],
        confidence: "0.0".into(),
        message: String::new(),
        signature_hex: None,
        signer_pubkey_hex: None,
    }
}

#[test]
fn canonical_event_bytes_are_compact_json_in_field_order() {
    let mut event = small_event();
    let expected = concat_lines(&[
        "{\"spec_version\":\"1\",\"event_id\":\"evt-1\",\"biome_id\":\"b\",",
        "\"kind\":\"anomaly\",\"severity\":\"watch\",\"modality\":\"weather\",",
        "\"geo\":{\"latitude_e7\":0,\"longitude_e7\":0,\"altitude_mm\":0},",
        "\"window_start_ns\":0,\"window_end_ns\":1,\"detected_ns\":1,",
        "\"evidence\":[{\"node_id\":1,\"sequence\":1}],",
        "\"confidence\":0.0,\"message\":\"\"}",
    ]);
    assert_eq!(canonical_event_bytes(&event), expected);
    // The signature's own fields stay out.
    sign_event(&SEED, &mut event);
    assert_eq!(canonical_event_bytes(&event), expected);

    event.evidence.push(EvidenceRef {
        node_id: u64::MAX,
        sequence: u32::MAX,
    });
    event.kind = EventKind::CrossBoundaryAlert;
    event.severity = Severity::Critical;
    event.message = "say \"go\"\n".to_string();
    let text = String::from_utf8(canonical_event_bytes(&event)).unwrap();
    assert!(text.contains("\"kind\":\"cross_boundary_alert\",\"severity\":\"critical\""));
    assert!(text.contains(
        "[{\"node_id\":1,\"sequence\":1},{\"node_id\":18446744073709551615,\"sequence\":4294967295}]"
    ));
    assert!(text.ends_with("\"message\":\"say \\\"go\\\"\\n\"}"));

    event.evidence.clear();
    let text = String::from_utf8(canonical_event_bytes(&event)).unwrap();
    assert!(text.contains("\"evidence\":[],\"confidence\""));
}

#[test]
fn signed_event_verifies_until_a_field_changes() {
    let mut event = small_event();
    assert!(!verify_event(&event));
    sign_event(&SEED, &mut event);
    assert!(verify_event(&event));

    let mut e = event.clone();
    e.spec_version.push('2');
    assert!(!verify_event(&e));
    let mut e = event.clone();
    e.kind = EventKind::FloodRisk;
    assert!(!verify_event(&e));
    let mut e = event.clone();
    e.severity = Severity::Critical;
    assert!(!verify_event(&e));
    let mut e = event.clone();
    e.geo = "{\"latitude_e7\":1,\"longitude_e7\":0,\"altitude_mm\":0}".into();
    assert!(!verify_event(&e));
    let mut e = event.clone();
    e.detected_ns = 2;
    assert!(!verify_event(&e));
    let mut e = event.clone();
    e.evidence[0].sequence = 2;
    assert!(!verify_event(&e));
    let mut e = event.clone();
    e.evidence.clear();
    assert!(!verify_event(&e));
    let mut e = event.clone();
    e.confidence = "1.0".into();
    assert!(!verify_event(&e));
    let mut e = event.clone();
    e.message.push('!');
    assert!(!verify_event(&e));
    let mut e = event.clone();
    e.signature_hex = None;
    assert!(!verify_event(&e));
    let mut e = event.clone();
    e.signer_pubkey_hex = None;
    assert!(!verify_event(&e));

    assert_eq!(event.signer_pubkey_hex, Some(public_key_hex_of(&SEED)));
    assert_eq!(event.event_id, "evt-1");
}

#[test]
fn dbg_float() {
    let s = "23.470000000000002";
    let a: f64 = s.parse().unwrap();
    let b: f64 = serde_json::from_str(s).unwrap();
    println!("std   = {:?} bits={:x}", a, a.to_bits());
    println!("serde = {:?} bits={:x}", b, b.to_bits());
    assert_eq!(a.to_bits(), b.to_bits());
}
