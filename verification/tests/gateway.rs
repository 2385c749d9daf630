//! The gateway: identity, clock, revocations and passes over peers.

use rucelium::error::StoreError;
use rucelium::federation::events::{sign_event, verify_event};
use rucelium::federation::grouping::Reading;
use rucelium::federation::sig::public_key_hex_of;
use rucelium::federation::summary::{Biome, Figures, RegionalSummary};
use rucelium::gateway::clock::{clamp_reading, now_ns};
use rucelium::gateway::federation::{
    apply_peer_revocation, poll_interval_ms, request_url, sync_step, SyncReply, SyncReport,
    SyncStep,
};
use rucelium::gateway::seed::biome_seed;
use rucelium::gateway::state::{DatagramStats, GatewayConfig, Inner};
use rucelium::model::event::{EnvironmentalEvent, EventKind, EvidenceRef, Severity};
use rucelium::model::sample::EnvSample;
use rucelium::store::events::EventStore;
use rucelium::store::observations::ObservationStore;

const PEER_SEED: [u8; 32] = *b"rucelium-peer-biome-seed-32-b!!!";
const OTHER_SEED: [u8; 32] = *b"rucelium-wrong-key-seed-32-byte!";
const NODE: u64 = 0x5C00_0000_0000_0042;

fn config() -> GatewayConfig {
    GatewayConfig {
        spec_version: "1".to_string(),
        biome_id: "biome/gateway".to_string(),
        seed: 7,
    }
}

fn no_file(_: &String) -> Result<Vec<u8>, StoreError> {
    Err(StoreError::Io("no file".to_string()))
}

fn no_sample(_: &str) -> Result<EnvSample, String> {
    Err("no sample".to_string())
}

fn no_event(_: &str) -> Result<EnvironmentalEvent, String> {
    Err("no event".to_string())
}

fn empty_obs(max: usize) -> Result<ObservationStore, String> {
    assert_eq!(max, 4096);
    ObservationStore::open(&Vec::new(), max, &Vec::new(), &no_file, &no_sample)
        .map(|opened| opened.0)
        .map_err(|e| format!("{:?}", e))
}

fn empty_events(max: usize) -> Result<EventStore, String> {
    assert_eq!(max, 1024);
    EventStore::open(&Vec::new(), max, &no_file, &no_event)
        .map(|opened| opened.0)
        .map_err(|e| format!("{:?}", e))
}

fn test_inner() -> Inner {
    Inner::open(&config(), empty_obs, empty_events).unwrap()
}

fn inner_with_registered_node() -> Inner {
    let mut inner = test_inner();
    inner.registry.register(NODE);
    inner
}

fn signed(mut event: EnvironmentalEvent, seed: &[u8; 32]) -> EnvironmentalEvent {
    sign_event(seed, &mut event);
    event
}

fn revoke_device(
    seed: &[u8; 32],
    event_id: &str,
    node_id: u64,
    detected_ns: u64,
    message: &str,
) -> EnvironmentalEvent {
    signed(
        EnvironmentalEvent {
            spec_version: "1".into(),
            event_id: event_id.into(),
            biome_id: "biome/peer".into(),
            kind: EventKind::DeviceRevoked,
            severity: Severity::Warning,
            modality: "weather".into(),
            geo: "{\"latitude_e7\":0,\"longitude_e7\":0,\"altitude_mm\":0}".into(),
            window_start_ns: detected_ns,
            window_end_ns: detected_ns,
            detected_ns,
            evidence: vec![EvidenceRef {
                node_id,
                sequence: 0,
            }],
            confidence: "1.0".into(),
            message: message.into(),
            signature_hex: None,
            signer_pubkey_hex: None,
        },
        seed,
    )
}

#[test]
fn verified_peer_revocation_is_applied_once_and_registry_rejects() {
    let mut inner = inner_with_registered_node();
    let peer_key = public_key_hex_of(&PEER_SEED);
    let event = revoke_device(&PEER_SEED, "revoke-1", NODE, 1_000, "compromised");

    assert!(apply_peer_revocation(&mut inner, &event, &peer_key));
    assert!(inner.registry.is_revoked(NODE));
    assert_eq!(inner.applied_peer_revocations, 1);

    // Idempotent: the same event never counts twice.
    assert!(!apply_peer_revocation(&mut inner, &event, &peer_key));
    assert_eq!(inner.applied_peer_revocations, 1);

    // The revoked node stays rejected from now on.
    assert!(inner.registry.is_registered(NODE));
    assert!(inner.registry.is_revoked(NODE));
}

#[test]
fn event_signed_by_the_wrong_key_is_not_applied() {
    let mut inner = inner_with_registered_node();
    let peer_key = public_key_hex_of(&PEER_SEED);
    // A different biome signs a revocation but claims the peer's slot.
    let event = revoke_device(&OTHER_SEED, "revoke-1", NODE, 1_000, "forged");

    // The impostor's signature is valid, but not the peer's key.
    assert!(verify_event(&event));
    assert!(!apply_peer_revocation(&mut inner, &event, &peer_key));
    assert!(!inner.registry.is_revoked(NODE));
    assert_eq!(inner.applied_peer_revocations, 0);
}

#[test]
fn tampered_or_wrong_kind_events_are_not_applied() {
    let mut inner = inner_with_registered_node();
    let peer_key = public_key_hex_of(&PEER_SEED);
    let event = revoke_device(&PEER_SEED, "revoke-1", NODE, 1_000, "compromised");

    let mut tampered = event.clone();
    tampered.message.push('!');
    assert!(!apply_peer_revocation(&mut inner, &tampered, &peer_key));

    let mut wrong_kind = event.clone();
    wrong_kind.kind = EventKind::Anomaly;
    let wrong_kind = signed(wrong_kind, &PEER_SEED);
    assert!(!apply_peer_revocation(&mut inner, &wrong_kind, &peer_key));

    assert!(!inner.registry.is_revoked(NODE));
    assert_eq!(inner.applied_peer_revocations, 0);
}

#[test]
fn unregistered_node_leaves_event_unapplied_for_retry() {
    let mut inner = test_inner();
    let peer_key = public_key_hex_of(&PEER_SEED);
    let event = revoke_device(&PEER_SEED, "revoke-1", NODE, 1_000, "compromised");
    assert!(!apply_peer_revocation(&mut inner, &event, &peer_key));
    // After provisioning, the same event applies on the next poll.
    inner.registry.register(NODE);
    assert!(apply_peer_revocation(&mut inner, &event, &peer_key));
    assert!(inner.registry.is_revoked(NODE));
}

#[test]
fn revocation_without_evidence_is_not_applied() {
    let mut inner = inner_with_registered_node();
    let mut event = revoke_device(&PEER_SEED, "revoke-1", NODE, 1_000, "compromised");
    event.evidence.clear();
    let event = signed(event, &PEER_SEED);
    assert!(!apply_peer_revocation(&mut inner, &event, &public_key_hex_of(&PEER_SEED)));
    assert!(!inner.registry.is_revoked(NODE));
}

#[test]
fn biome_seed_is_deterministic_and_id_sensitive() {
    assert_eq!(biome_seed("biome/a", 1), biome_seed("biome/a", 1));
    assert_ne!(biome_seed("biome/a", 1), biome_seed("biome/b", 1));
    assert_ne!(biome_seed("biome/a", 1), biome_seed("biome/a", 2));
    // Empty id still yields a stable, non-degenerate seed.
    let empty = biome_seed("", 7);
    assert_eq!(empty, biome_seed("", 7));
    assert!(empty.iter().any(|&b| b != 0));
}

#[test]
fn biome_seed_bytes_are_exact() {
    let seed = biome_seed("ab", 0x0807_0605_0403_0201);
    // Id byte, number byte from the lowest, and the index times the whitener.
    assert_eq!(seed[0], b'a' ^ 0x01);
    assert_eq!(seed[1], b'b' ^ 0x02 ^ 0x9E);
    assert_eq!(seed[2], b'a' ^ 0x03 ^ 0x3C);
    assert_eq!(seed[31], b'b' ^ 0x08 ^ 0x22);
    assert_eq!(biome_seed("", 0)[0], 0x7A);
    // Ids that repeat to the same bytes cannot be told apart.
    assert_eq!(biome_seed("a", 3), biome_seed("aa", 3));
}

#[test]
fn same_config_reproduces_the_biome_identity() {
    let a = Inner::open(&config(), empty_obs, empty_events).unwrap();
    let b = Inner::open(&config(), empty_obs, empty_events).unwrap();
    assert_eq!(a.biome.public_key_hex(), b.biome.public_key_hex());
}

#[test]
fn now_ns_is_monotonic_enough_and_after_2020() {
    let a = now_ns();
    let b = now_ns();
    assert!(b >= a);
    assert!(a > 1_577_836_800_000_000_000, "clock reads before 2020");
}

#[test]
fn clock_readings_are_clamped() {
    assert_eq!(clamp_reading(None), 0);
    assert_eq!(clamp_reading(Some(5)), 5);
    assert_eq!(clamp_reading(Some(u128::from(u64::MAX))), u64::MAX);
    assert_eq!(clamp_reading(Some(u128::from(u64::MAX) + 1)), u64::MAX);
}

#[test]
fn stores_are_opened_in_order_and_named_in_errors() {
    let no_obs = Inner::open(
        &config(),
        |_: usize| Err("disk gone".to_string()),
        |_: usize| panic!("the event store is not opened"),
    );
    assert_eq!(
        no_obs.map(|_| ()),
        Err("open observation store: disk gone".to_string())
    );
    let no_events = Inner::open(&config(), empty_obs, |_: usize| Err("disk gone".to_string()));
    assert_eq!(
        no_events.map(|_| ()),
        Err("open event store: disk gone".to_string())
    );
    let inner = test_inner();
    assert_eq!(inner.applied_peer_revocations, 0);
    assert_eq!(inner.alerts, 0);
    assert_eq!(inner.calibration_errors, 0);
    assert!(inner.peer_summaries.is_empty());
    assert!(inner.calibration.is_empty());
    assert_eq!(inner.datagrams, DatagramStats::default());
    assert_eq!(
        inner.biome.public_key_hex(),
        public_key_hex_of(&biome_seed("biome/gateway", 7))
    );
}

fn fold(_: &Vec<Reading>) -> Figures {
    Figures {
        mean: "1.0".to_string(),
        min: "1.0".to_string(),
        max: "1.0".to_string(),
        mean_quality: "1.0".to_string(),
    }
}

fn peer_summary(seed: [u8; 32], end_ns: u64) -> RegionalSummary {
    Biome::new("1".to_string(), "biome/peer".to_string(), seed, Vec::new()).summarize(
        0, end_ns, &fold,
    )
}

fn ask_summary(key: &str) -> SyncStep {
    SyncStep::AskSummary {
        biome_id: "biome/peer".to_string(),
        pubkey_hex: key.to_string(),
    }
}

#[test]
fn pass_over_a_peer_asks_key_summary_and_revocations() {
    let mut inner = inner_with_registered_node();
    let peer = "http://peer.example/".to_string();
    let key = public_key_hex_of(&PEER_SEED);

    let step = SyncStep::AskPubkey;
    assert_eq!(
        request_url(&peer, &step),
        Some("http://peer.example/api/federation/pubkey".to_string())
    );
    let reply = SyncReply::Pubkey {
        biome_id: "biome/peer".to_string(),
        pubkey_hex: key.clone(),
    };
    let (step, report) = sync_step(&mut inner, &peer, step, reply, 1);
    assert_eq!(report, SyncReport::KeyNoted);
    assert_eq!(step, ask_summary(&key));
    assert_eq!(
        request_url(&peer, &step),
        Some("http://peer.example/api/federation/summary?window_s=3600".to_string())
    );

    let reply = SyncReply::Summary(peer_summary(PEER_SEED, 10));
    let (step, report) = sync_step(&mut inner, &peer, step, reply, 2);
    assert_eq!(report, SyncReport::SummaryRecorded);
    assert_eq!(inner.peer_summaries.len(), 1);
    assert_eq!(inner.peer_summaries[0].peer, peer);
    assert_eq!(inner.peer_summaries[0].fetched_ns, 2);
    assert_eq!(
        request_url(&peer, &step),
        Some("http://peer.example/api/federation/revocations".to_string())
    );

    let good = revoke_device(&PEER_SEED, "revoke-1", NODE, 1_000, "compromised");
    let forged = revoke_device(&OTHER_SEED, "revoke-2", NODE, 1_000, "forged");
    let list = vec![good.clone(), forged, good];
    let (step, report) = sync_step(&mut inner, &peer, step, SyncReply::Revocations(list), 3);
    assert_eq!(
        report,
        SyncReport::RevocationsApplied(vec!["revoke-1".to_string()])
    );
    assert_eq!(step, SyncStep::Finished);
    assert_eq!(request_url(&peer, &step), None);
    assert!(inner.registry.is_revoked(NODE));
    assert_eq!(inner.applied_peer_revocations, 1);
}

#[test]
fn latest_genuine_summary_of_each_peer_is_kept() {
    let mut inner = test_inner();
    let key = public_key_hex_of(&PEER_SEED);
    let a = "http://a".to_string();
    let b = "http://b".to_string();
    for (peer, end_ns, now) in [(&a, 10, 1), (&b, 20, 2), (&a, 30, 3)] {
        let reply = SyncReply::Summary(peer_summary(PEER_SEED, end_ns));
        let (_, report) = sync_step(&mut inner, peer, ask_summary(&key), reply, now);
        assert_eq!(report, SyncReport::SummaryRecorded);
    }
    let kept: Vec<(&str, u64, u64)> = inner
        .peer_summaries
        .iter()
        .map(|p| (p.peer.as_str(), p.summary.window_end_ns, p.fetched_ns))
        .collect();
    assert_eq!(kept, vec![("http://b", 20, 2), ("http://a", 30, 3)]);

    // Signed by another key, or changed on the way: skipped.
    let mut changed = peer_summary(PEER_SEED, 40);
    changed.window_end_ns = 41;
    for bad in [peer_summary(OTHER_SEED, 40), changed] {
        let (step, report) =
            sync_step(&mut inner, &a, ask_summary(&key), SyncReply::Summary(bad), 4);
        assert_eq!(
            report,
            SyncReport::SummarySkipped {
                biome_id: "biome/peer".to_string()
            }
        );
        // The pass goes on with the revocations all the same.
        assert_eq!(
            step,
            SyncStep::AskRevocations {
                pubkey_hex: key.clone()
            }
        );
    }
    assert_eq!(inner.peer_summaries.len(), 2);
}

#[test]
fn failed_request_ends_the_pass() {
    let mut inner = test_inner();
    let peer = "http://a".to_string();
    let reply = SyncReply::Failed("GET http://a: timeout".to_string());
    let (step, report) = sync_step(&mut inner, &peer, SyncStep::AskPubkey, reply, 1);
    assert_eq!(step, SyncStep::Finished);
    assert_eq!(
        report,
        SyncReport::PassFailed("GET http://a: timeout".to_string())
    );
    let reply = SyncReply::Revocations(Vec::new());
    let (step, report) = sync_step(&mut inner, &peer, SyncStep::AskPubkey, reply, 1);
    assert_eq!((step, report), (SyncStep::Finished, SyncReport::OutOfTurn));
}

#[test]
fn addresses_lose_the_slashes_at_their_end() {
    for peer in ["http://p:80", "http://p:80/", "http://p:80///"] {
        assert_eq!(
            request_url(peer, &SyncStep::AskPubkey),
            Some("http://p:80/api/federation/pubkey".to_string())
        );
    }
    assert_eq!(
        request_url("///", &SyncStep::AskPubkey),
        Some("/api/federation/pubkey".to_string())
    );
}

#[test]
fn polls_are_not_too_frequent() {
    assert_eq!(poll_interval_ms(0), 50);
    assert_eq!(poll_interval_ms(49), 50);
    assert_eq!(poll_interval_ms(50), 50);
    assert_eq!(poll_interval_ms(60_000), 60_000);
}
