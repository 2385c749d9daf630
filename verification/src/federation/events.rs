//! The bytes that are signed for an environmental event, and signatures over
//! them.

use crate::federation::json::{
    json_quoted, json_string, lacks, lemma_field_prefix, lemma_join, lemma_quoted_prefix,
    lemma_same_prefix,
};
use crate::federation::sig::{
    detached_valid, ed25519_public, ed25519_signature, hex_text, public_key_hex_of, sign_detached,
    verify_detached,
};
use crate::federation::summary::{lemma_number_prefix, option_text};
use crate::model::event::{EnvironmentalEvent, EventKind, EvidenceRef, Severity};
use crate::text::{decimal, decimal_text, lemma_decimal};
use vstd::prelude::*;
use vstd::slice::slice_to_vec;
use vstd::string::*;
use vstd::utf8::{encode_utf8, encode_utf8_decode_utf8};

verus! {

// ---------------------------------------------------------------------------
// Canonical bytes
// ---------------------------------------------------------------------------

/// The name of an event kind.
pub open spec fn kind_name(kind: EventKind) -> Seq<char> {
    match kind {
        EventKind::ThresholdExceeded => "threshold_exceeded"@,
        EventKind::Anomaly => "anomaly"@,
        EventKind::SensorTampered => "sensor_tampered"@,
        EventKind::SensorQuarantined => "sensor_quarantined"@,
        EventKind::DeviceRevoked => "device_revoked"@,
        EventKind::CalibrationDrift => "calibration_drift"@,
        EventKind::FloodRisk => "flood_risk"@,
        EventKind::WildfireRisk => "wildfire_risk"@,
        EventKind::CrossBoundaryAlert => "cross_boundary_alert"@,
    }
}

/// The name of a severity.
pub open spec fn severity_name(severity: Severity) -> Seq<char> {
    match severity {
        Severity::Advisory => "advisory"@,
        Severity::Watch => "watch"@,
        Severity::Warning => "warning"@,
        Severity::Critical => "critical"@,
    }
}

/// One contributing observation.
pub open spec fn evidence_entry(r: EvidenceRef) -> Seq<char> {
    "{\"node_id\":"@ + decimal(r.node_id as nat) + ",\"sequence\":"@ + decimal(r.sequence as nat)
        + "}"@
}

/// The contributing observations after the first one, each after its comma.
pub open spec fn more_evidence(evidence: Seq<EvidenceRef>) -> Seq<char>
    decreases evidence.len(),
{
    if evidence.len() == 0 {
        Seq::empty()
    } else {
        ","@ + evidence_entry(evidence[0]) + more_evidence(evidence.skip(1))
    }
}

/// The contributing observations between the brackets of the list.
pub open spec fn evidence_text(evidence: Seq<EvidenceRef>) -> Seq<char> {
    if evidence.len() == 0 {
        Seq::empty()
    } else {
        evidence_entry(evidence[0]) + more_evidence(evidence.skip(1))
    }
}

/// Who says it.
pub open spec fn identity_part(e: EnvironmentalEvent) -> Seq<char> {
    "{\"spec_version\":"@ + json_quoted(e.spec_version@) + ",\"event_id\":"@ + json_quoted(
        e.event_id@,
    ) + ",\"biome_id\":"@ + json_quoted(e.biome_id@) + ",\"kind\":\""@
}

/// What, how bad and where.
pub open spec fn kind_part(e: EnvironmentalEvent) -> Seq<char> {
    kind_name(e.kind) + "\",\"severity\":\""@ + severity_name(e.severity) + "\",\"modality\":"@
        + json_quoted(e.modality@) + ",\"geo\":"@ + e.geo@ + ",\"window_start_ns\":"@
}

/// When.
pub open spec fn time_part(e: EnvironmentalEvent) -> Seq<char> {
    decimal(e.window_start_ns as nat) + ",\"window_end_ns\":"@ + decimal(e.window_end_ns as nat)
        + ",\"detected_ns\":"@ + decimal(e.detected_ns as nat) + ",\"evidence\":["@
}

/// On what grounds.
pub open spec fn grounds_part(e: EnvironmentalEvent) -> Seq<char> {
    evidence_text(e.evidence@) + "],\"confidence\":"@ + e.confidence@ + ",\"message\":"@
        + json_quoted(e.message@) + "}"@
}

/// The event without its signature, as compact JSON with the fields in their
/// order.
pub open spec fn canonical_event_text(e: EnvironmentalEvent) -> Seq<char> {
    identity_part(e) + kind_part(e) + time_part(e) + grounds_part(e)
}

/// The bytes that are signed for an event.
pub open spec fn event_bytes(e: EnvironmentalEvent) -> Seq<u8> {
    encode_utf8(canonical_event_text(e))
}

fn kind_text(kind: EventKind) -> (name: &'static str)
    ensures
        name@ == kind_name(kind),
{
    match kind {
        EventKind::ThresholdExceeded => "threshold_exceeded",
        EventKind::Anomaly => "anomaly",
        EventKind::SensorTampered => "sensor_tampered",
        EventKind::SensorQuarantined => "sensor_quarantined",
        EventKind::DeviceRevoked => "device_revoked",
        EventKind::CalibrationDrift => "calibration_drift",
        EventKind::FloodRisk => "flood_risk",
        EventKind::WildfireRisk => "wildfire_risk",
        EventKind::CrossBoundaryAlert => "cross_boundary_alert",
    }
}

fn severity_text(severity: Severity) -> (name: &'static str)
    ensures
        name@ == severity_name(severity),
{
    match severity {
        Severity::Advisory => "advisory",
        Severity::Watch => "watch",
        Severity::Warning => "warning",
        Severity::Critical => "critical",
    }
}

/// Observations from left to right.
proof fn lemma_more_evidence_push(evidence: Seq<EvidenceRef>, r: EvidenceRef)
    ensures
        more_evidence(evidence.push(r)) == more_evidence(evidence) + ","@ + evidence_entry(r),
    decreases evidence.len(),
{
    let longer = evidence.push(r);
    if evidence.len() == 0 {
        assert(longer.skip(1) =~= Seq::empty());
        assert(more_evidence(longer.skip(1)) =~= Seq::empty());
        assert(more_evidence(longer) =~= ","@ + evidence_entry(r));
        assert(more_evidence(evidence) + ","@ + evidence_entry(r) =~= ","@ + evidence_entry(r));
    } else {
        assert(longer.skip(1) =~= evidence.skip(1).push(r));
        lemma_more_evidence_push(evidence.skip(1), r);
        assert(more_evidence(longer) =~= more_evidence(evidence) + ","@ + evidence_entry(r));
    }
}

/// One more observation in the list.
pub proof fn lemma_evidence_push(evidence: Seq<EvidenceRef>, r: EvidenceRef)
    ensures
        evidence_text(evidence.push(r)) == (if evidence.len() == 0 {
            evidence_entry(r)
        } else {
            evidence_text(evidence) + ","@ + evidence_entry(r)
        }),
{
    let longer = evidence.push(r);
    if evidence.len() == 0 {
        assert(longer.skip(1) =~= Seq::empty());
        assert(evidence_text(longer) =~= evidence_entry(r));
    } else {
        assert(longer.skip(1) =~= evidence.skip(1).push(r));
        lemma_more_evidence_push(evidence.skip(1), r);
        assert(evidence_text(longer) =~= evidence_text(evidence) + ","@ + evidence_entry(r));
    }
}

fn push_evidence(out: &mut String, evidence: &Vec<EvidenceRef>)
    ensures
        final(out)@ == old(out)@ + evidence_text(evidence@),
{
    let ghost head = out@;
    let mut i: usize = 0;
    assert(evidence@.take(0) =~= Seq::empty());
    assert(out@ =~= head + evidence_text(evidence@.take(0)));
    while i < evidence.len()
        invariant
            i <= evidence.len(),
            out@ == head + evidence_text(evidence@.take(i as int)),
        decreases evidence.len() - i,
    {
        proof {
            assert(evidence@.take(i + 1) =~= evidence@.take(i as int).push(evidence@[i as int]));
            lemma_evidence_push(evidence@.take(i as int), evidence@[i as int]);
        }
        let r = evidence[i];
        if i > 0 {
            out.append(",");
        }
        out.append("{\"node_id\":");
        out.append(decimal_text(r.node_id).as_str());
        out.append(",\"sequence\":");
        out.append(decimal_text(r.sequence as u64).as_str());
        out.append("}");
        assert(out@ =~= head + evidence_text(evidence@.take(i + 1)));
        i += 1;
    }
    assert(evidence@.take(i as int) =~= evidence@);
}

fn push_identity(out: &mut String, e: &EnvironmentalEvent)
    ensures
        final(out)@ == old(out)@ + identity_part(*e),
{
    let ghost before = out@;
    out.append("{\"spec_version\":");
    out.append(json_string(e.spec_version.as_str()).as_str());
    out.append(",\"event_id\":");
    out.append(json_string(e.event_id.as_str()).as_str());
    out.append(",\"biome_id\":");
    out.append(json_string(e.biome_id.as_str()).as_str());
    out.append(",\"kind\":\"");
    assert(out@ =~= before + identity_part(*e));
}

fn push_kind(out: &mut String, e: &EnvironmentalEvent)
    ensures
        final(out)@ == old(out)@ + kind_part(*e),
{
    let ghost before = out@;
    out.append(kind_text(e.kind));
    out.append("\",\"severity\":\"");
    out.append(severity_text(e.severity));
    out.append("\",\"modality\":");
    out.append(json_string(e.modality.as_str()).as_str());
    out.append(",\"geo\":");
    out.append(e.geo.as_str());
    out.append(",\"window_start_ns\":");
    assert(out@ =~= before + kind_part(*e));
}

fn push_time(out: &mut String, e: &EnvironmentalEvent)
    ensures
        final(out)@ == old(out)@ + time_part(*e),
{
    let ghost before = out@;
    out.append(decimal_text(e.window_start_ns).as_str());
    out.append(",\"window_end_ns\":");
    out.append(decimal_text(e.window_end_ns).as_str());
    out.append(",\"detected_ns\":");
    out.append(decimal_text(e.detected_ns).as_str());
    out.append(",\"evidence\":[");
    assert(out@ =~= before + time_part(*e));
}

fn push_grounds(out: &mut String, e: &EnvironmentalEvent)
    ensures
        final(out)@ == old(out)@ + grounds_part(*e),
{
    let ghost before = out@;
    push_evidence(out, &e.evidence);
    out.append("],\"confidence\":");
    out.append(e.confidence.as_str());
    out.append(",\"message\":");
    out.append(json_string(e.message.as_str()).as_str());
    out.append("}");
    assert(out@ =~= before + grounds_part(*e));
}

/// Canonical bytes signed for an event: the event with its signature fields
/// left out, as compact JSON.
pub fn canonical_event_bytes(event: &EnvironmentalEvent) -> (bytes: Vec<u8>)
    ensures
        bytes@ == event_bytes(*event),
{
    let mut out = String::new();
    push_identity(&mut out, event);
    push_kind(&mut out, event);
    push_time(&mut out, event);
    push_grounds(&mut out, event);
    assert(out@ =~= canonical_event_text(*event));
    slice_to_vec(out.as_str().as_bytes())
}

// ---------------------------------------------------------------------------
// Signing and verifying
// ---------------------------------------------------------------------------

/// Both signature fields are there, and valid over the canonical bytes.
pub open spec fn event_valid(event: EnvironmentalEvent) -> bool {
    match (event.signature_hex, event.signer_pubkey_hex) {
        (Some(sig_hex), Some(pk_hex)) => detached_valid(pk_hex@, sig_hex@, event_bytes(event)),
        _ => false,
    }
}

/// `after` is the event as the key made from `seed` signs it.
pub open spec fn event_signed(
    before: EnvironmentalEvent,
    seed: Seq<u8>,
    after: EnvironmentalEvent,
) -> bool {
    &&& option_text(after.signature_hex) == Some(
        hex_text(ed25519_signature(seed, event_bytes(before))),
    )
    &&& option_text(after.signer_pubkey_hex) == Some(hex_text(ed25519_public(seed)))
    &&& after == (EnvironmentalEvent {
        signature_hex: after.signature_hex,
        signer_pubkey_hex: after.signer_pubkey_hex,
        ..before
    })
}

/// Verify the signature on an event: `true` only when both signature fields
/// are present and verify over the canonical bytes.
pub fn verify_event(event: &EnvironmentalEvent) -> (valid: bool)
    ensures
        valid == event_valid(*event),
{
    match (&event.signature_hex, &event.signer_pubkey_hex) {
        (Some(sig_hex), Some(pk_hex)) => {
            let bytes = canonical_event_bytes(event);
            verify_detached(pk_hex.as_str(), sig_hex.as_str(), bytes.as_slice())
        },
        _ => false,
    }
}

/// Sign an event in place with the key made from `seed`, over its canonical
/// bytes. What is signed verifies.
pub fn sign_event(seed: &[u8; 32], event: &mut EnvironmentalEvent)
    ensures
        option_text(final(event).signature_hex) == Some(
            hex_text(ed25519_signature(seed@, event_bytes(*old(event)))),
        ),
        option_text(final(event).signer_pubkey_hex) == Some(hex_text(ed25519_public(seed@))),
        *final(event) == (EnvironmentalEvent {
            signature_hex: final(event).signature_hex,
            signer_pubkey_hex: final(event).signer_pubkey_hex,
            ..*old(event)
        }),
        event_valid(*final(event)),
        event_signed(*old(event), seed@, *final(event)),
{
    let ghost before = *event;
    let bytes = canonical_event_bytes(event);
    event.signature_hex = Some(sign_detached(seed, bytes.as_slice()));
    event.signer_pubkey_hex = Some(public_key_hex_of(seed));
    assert(canonical_event_text(*event) == canonical_event_text(before));
}

// ---------------------------------------------------------------------------
// What the signed bytes say
// ---------------------------------------------------------------------------

/// The location is a flat JSON object and the confidence holds no comma, as
/// coordinates and JSON numbers are.
pub open spec fn plain_event(e: EnvironmentalEvent) -> bool {
    &&& e.geo@.len() > 0
    &&& e.geo@.last() == '}'
    &&& lacks(e.geo@.drop_last(), '}')
    &&& lacks(e.confidence@, ',')
}

/// The events say the same, whoever signed them.
pub open spec fn same_event(a: EnvironmentalEvent, b: EnvironmentalEvent) -> bool {
    &&& a.spec_version@ == b.spec_version@
    &&& a.event_id@ == b.event_id@
    &&& a.biome_id@ == b.biome_id@
    &&& a.kind == b.kind
    &&& a.severity == b.severity
    &&& a.modality@ == b.modality@
    &&& a.geo@ == b.geo@
    &&& a.window_start_ns == b.window_start_ns
    &&& a.window_end_ns == b.window_end_ns
    &&& a.detected_ns == b.detected_ns
    &&& a.evidence@ == b.evidence@
    &&& a.confidence@ == b.confidence@
    &&& a.message@ == b.message@
}

/// Kinds have names of their own, without quotes.
proof fn lemma_kind_names(a: EventKind, b: EventKind)
    ensures
        kind_name(a) == kind_name(b) ==> a == b,
        lacks(kind_name(a), '"'),
{
    reveal_strlit("threshold_exceeded");
    reveal_strlit("anomaly");
    reveal_strlit("sensor_tampered");
    reveal_strlit("sensor_quarantined");
    reveal_strlit("device_revoked");
    reveal_strlit("calibration_drift");
    reveal_strlit("flood_risk");
    reveal_strlit("wildfire_risk");
    reveal_strlit("cross_boundary_alert");
    let x = kind_name(a);
    let y = kind_name(b);
    if x == y {
        assert(x.len() == y.len());
        assert(x[0] == y[0]);
    }
}

/// Severities have names of their own, without quotes.
proof fn lemma_severity_names(a: Severity, b: Severity)
    ensures
        severity_name(a) == severity_name(b) ==> a == b,
        lacks(severity_name(a), '"'),
{
    reveal_strlit("advisory");
    reveal_strlit("watch");
    reveal_strlit("warning");
    reveal_strlit("critical");
    let x = severity_name(a);
    let y = severity_name(b);
    if x == y {
        assert(x.len() == y.len());
        assert(x[0] == y[0]);
    }
}

/// Observations that go on alike are alike.
proof fn lemma_evidence_entry_prefix(
    a: EvidenceRef,
    b: EvidenceRef,
    x: Seq<char>,
    y: Seq<char>,
)
    requires
        evidence_entry(a) + x == evidence_entry(b) + y,
    ensures
        a == b,
        x == y,
{
    reveal_strlit(",\"sequence\":");
    reveal_strlit("}");
    lemma_decimal(a.sequence as nat);
    lemma_decimal(b.sequence as nat);
    let a1 = decimal(a.sequence as nat) + ("}"@ + x);
    let b1 = decimal(b.sequence as nat) + ("}"@ + y);
    let a0 = decimal(a.node_id as nat) + (",\"sequence\":"@ + a1);
    let b0 = decimal(b.node_id as nat) + (",\"sequence\":"@ + b1);
    assert(evidence_entry(a) + x =~= "{\"node_id\":"@ + a0);
    assert(evidence_entry(b) + y =~= "{\"node_id\":"@ + b0);
    lemma_same_prefix("{\"node_id\":"@, a0, b0);
    lemma_number_prefix(a.node_id as nat, b.node_id as nat, ",\"sequence\":"@, a1, b1);
    lemma_field_prefix(decimal(a.sequence as nat), decimal(b.sequence as nat), "}"@, x, y);
}

/// Lists of observations are alike where their texts are, up to the bracket.
proof fn lemma_more_evidence_prefix(
    a: Seq<EvidenceRef>,
    b: Seq<EvidenceRef>,
    x: Seq<char>,
    y: Seq<char>,
)
    requires
        x.len() > 0 && x[0] == ']',
        y.len() > 0 && y[0] == ']',
        more_evidence(a) + x == more_evidence(b) + y,
    ensures
        a == b,
        x == y,
    decreases a.len() + b.len(),
{
    reveal_strlit(",");
    let s = more_evidence(a) + x;
    let t = more_evidence(b) + y;
    assert(s[0] == t[0]);
    assert(a.len() == 0 ==> s[0] == ']');
    assert(b.len() == 0 ==> t[0] == ']');
    assert(a.len() > 0 ==> s[0] == ',');
    assert(b.len() > 0 ==> t[0] == ',');
    if a.len() == 0 {
        assert(a =~= b);
        assert(s =~= x);
        assert(t =~= y);
    } else {
        let rest_a = more_evidence(a.skip(1)) + x;
        let rest_b = more_evidence(b.skip(1)) + y;
        assert(s =~= ","@ + (evidence_entry(a[0]) + rest_a));
        assert(t =~= ","@ + (evidence_entry(b[0]) + rest_b));
        lemma_same_prefix(","@, evidence_entry(a[0]) + rest_a, evidence_entry(b[0]) + rest_b);
        lemma_evidence_entry_prefix(a[0], b[0], rest_a, rest_b);
        lemma_more_evidence_prefix(a.skip(1), b.skip(1), x, y);
        assert(a =~= seq![a[0]] + a.skip(1));
        assert(b =~= seq![b[0]] + b.skip(1));
    }
}

/// The same of whole lists.
proof fn lemma_evidence_prefix(
    a: Seq<EvidenceRef>,
    b: Seq<EvidenceRef>,
    x: Seq<char>,
    y: Seq<char>,
)
    requires
        x.len() > 0 && x[0] == ']',
        y.len() > 0 && y[0] == ']',
        evidence_text(a) + x == evidence_text(b) + y,
    ensures
        a == b,
        x == y,
{
    reveal_strlit("{\"node_id\":");
    let s = evidence_text(a) + x;
    let t = evidence_text(b) + y;
    assert(s[0] == t[0]);
    assert(a.len() == 0 ==> s[0] == ']');
    assert(b.len() == 0 ==> t[0] == ']');
    assert(a.len() > 0 ==> s[0] == '{');
    assert(b.len() > 0 ==> t[0] == '{');
    if a.len() == 0 {
        assert(a =~= b);
        assert(s =~= x);
        assert(t =~= y);
    } else {
        let rest_a = more_evidence(a.skip(1)) + x;
        let rest_b = more_evidence(b.skip(1)) + y;
        assert(s =~= evidence_entry(a[0]) + rest_a);
        assert(t =~= evidence_entry(b[0]) + rest_b);
        lemma_evidence_entry_prefix(a[0], b[0], rest_a, rest_b);
        lemma_more_evidence_prefix(a.skip(1), b.skip(1), x, y);
        assert(a =~= seq![a[0]] + a.skip(1));
        assert(b =~= seq![b[0]] + b.skip(1));
    }
}

/// The first part tells its fields.
proof fn lemma_identity_prefix(
    a: EnvironmentalEvent,
    b: EnvironmentalEvent,
    x: Seq<char>,
    y: Seq<char>,
)
    requires
        identity_part(a) + x == identity_part(b) + y,
    ensures
        a.spec_version@ == b.spec_version@,
        a.event_id@ == b.event_id@,
        a.biome_id@ == b.biome_id@,
        x == y,
{
    lemma_identity_unfold(a, x);
    lemma_identity_unfold(b, y);
    let a2 = json_quoted(a.biome_id@) + (",\"kind\":\""@ + x);
    let b2 = json_quoted(b.biome_id@) + (",\"kind\":\""@ + y);
    let a1 = json_quoted(a.event_id@) + (",\"biome_id\":"@ + a2);
    let b1 = json_quoted(b.event_id@) + (",\"biome_id\":"@ + b2);
    let a0 = json_quoted(a.spec_version@) + (",\"event_id\":"@ + a1);
    let b0 = json_quoted(b.spec_version@) + (",\"event_id\":"@ + b1);
    lemma_same_prefix("{\"spec_version\":"@, a0, b0);
    lemma_quoted_prefix(
        a.spec_version@,
        b.spec_version@,
        ",\"event_id\":"@ + a1,
        ",\"event_id\":"@ + b1,
    );
    lemma_same_prefix(",\"event_id\":"@, a1, b1);
    lemma_quoted_prefix(
        a.event_id@,
        b.event_id@,
        ",\"biome_id\":"@ + a2,
        ",\"biome_id\":"@ + b2,
    );
    lemma_same_prefix(",\"biome_id\":"@, a2, b2);
    lemma_quoted_prefix(a.biome_id@, b.biome_id@, ",\"kind\":\""@ + x, ",\"kind\":\""@ + y);
    lemma_same_prefix(",\"kind\":\""@, x, y);
}

proof fn lemma_identity_unfold(e: EnvironmentalEvent, x: Seq<char>)
    ensures
        identity_part(e) + x == "{\"spec_version\":"@ + (json_quoted(e.spec_version@)
            + (",\"event_id\":"@ + (json_quoted(e.event_id@) + (",\"biome_id\":"@ + (json_quoted(
            e.biome_id@,
        ) + (",\"kind\":\""@ + x)))))),
{
    let t0 = "{\"spec_version\":"@;
    let t1 = t0 + json_quoted(e.spec_version@);
    let t2 = t1 + ",\"event_id\":"@;
    let t3 = t2 + json_quoted(e.event_id@);
    let t4 = t3 + ",\"biome_id\":"@;
    let t5 = t4 + json_quoted(e.biome_id@);
    let r5 = ",\"kind\":\""@ + x;
    let r4 = json_quoted(e.biome_id@) + r5;
    let r3 = ",\"biome_id\":"@ + r4;
    let r2 = json_quoted(e.event_id@) + r3;
    let r1 = ",\"event_id\":"@ + r2;
    lemma_join(t5, ",\"kind\":\""@, x);
    lemma_join(t4, json_quoted(e.biome_id@), r5);
    lemma_join(t3, ",\"biome_id\":"@, r4);
    lemma_join(t2, json_quoted(e.event_id@), r3);
    lemma_join(t1, ",\"event_id\":"@, r2);
    lemma_join(t0, json_quoted(e.spec_version@), r1);
}

/// Flat objects that go on alike are alike.
proof fn lemma_object_prefix(a: Seq<char>, b: Seq<char>, x: Seq<char>, y: Seq<char>)
    requires
        a.len() > 0 && a.last() == '}' && lacks(a.drop_last(), '}'),
        b.len() > 0 && b.last() == '}' && lacks(b.drop_last(), '}'),
        a + x == b + y,
    ensures
        a == b,
        x == y,
{
    let brace = seq!['}'];
    assert(a =~= a.drop_last() + brace);
    assert(b =~= b.drop_last() + brace);
    assert(a + x =~= a.drop_last() + (brace + x));
    assert(b + y =~= b.drop_last() + (brace + y));
    lemma_field_prefix(a.drop_last(), b.drop_last(), brace, x, y);
}

/// The second part tells its fields.
proof fn lemma_kind_prefix(
    a: EnvironmentalEvent,
    b: EnvironmentalEvent,
    x: Seq<char>,
    y: Seq<char>,
)
    requires
        plain_event(a),
        plain_event(b),
        kind_part(a) + x == kind_part(b) + y,
    ensures
        a.kind == b.kind,
        a.severity == b.severity,
        a.modality@ == b.modality@,
        a.geo@ == b.geo@,
        x == y,
{
    lemma_kind_separators();
    lemma_kind_unfold(a, x);
    lemma_kind_unfold(b, y);
    lemma_kind_names(a.kind, b.kind);
    lemma_kind_names(b.kind, a.kind);
    lemma_severity_names(a.severity, b.severity);
    lemma_severity_names(b.severity, a.severity);
    let a3 = a.geo@ + (",\"window_start_ns\":"@ + x);
    let b3 = b.geo@ + (",\"window_start_ns\":"@ + y);
    let a2 = json_quoted(a.modality@) + (",\"geo\":"@ + a3);
    let b2 = json_quoted(b.modality@) + (",\"geo\":"@ + b3);
    let a1 = severity_name(a.severity) + ("\",\"modality\":"@ + a2);
    let b1 = severity_name(b.severity) + ("\",\"modality\":"@ + b2);
    lemma_field_prefix(kind_name(a.kind), kind_name(b.kind), "\",\"severity\":\""@, a1, b1);
    lemma_field_prefix(
        severity_name(a.severity),
        severity_name(b.severity),
        "\",\"modality\":"@,
        a2,
        b2,
    );
    lemma_quoted_prefix(a.modality@, b.modality@, ",\"geo\":"@ + a3, ",\"geo\":"@ + b3);
    lemma_same_prefix(",\"geo\":"@, a3, b3);
    lemma_object_prefix(
        a.geo@,
        b.geo@,
        ",\"window_start_ns\":"@ + x,
        ",\"window_start_ns\":"@ + y,
    );
    lemma_same_prefix(",\"window_start_ns\":"@, x, y);
}

proof fn lemma_kind_separators()
    ensures
        "\",\"severity\":\""@.len() > 0 && "\",\"severity\":\""@[0] == '"',
        "\",\"modality\":"@.len() > 0 && "\",\"modality\":"@[0] == '"',
{
    reveal_strlit("\",\"severity\":\"");
    reveal_strlit("\",\"modality\":");
}

proof fn lemma_kind_unfold(e: EnvironmentalEvent, x: Seq<char>)
    ensures
        kind_part(e) + x == kind_name(e.kind) + ("\",\"severity\":\""@ + (severity_name(e.severity)
            + ("\",\"modality\":"@ + (json_quoted(e.modality@) + (",\"geo\":"@ + (e.geo@
            + (",\"window_start_ns\":"@ + x))))))),
{
    let t0 = kind_name(e.kind);
    let t1 = t0 + "\",\"severity\":\""@;
    let t2 = t1 + severity_name(e.severity);
    let t3 = t2 + "\",\"modality\":"@;
    let t4 = t3 + json_quoted(e.modality@);
    let t5 = t4 + ",\"geo\":"@;
    let t6 = t5 + e.geo@;
    let r6 = ",\"window_start_ns\":"@ + x;
    let r5 = e.geo@ + r6;
    let r4 = ",\"geo\":"@ + r5;
    let r3 = json_quoted(e.modality@) + r4;
    let r2 = "\",\"modality\":"@ + r3;
    let r1 = severity_name(e.severity) + r2;
    lemma_join(t6, ",\"window_start_ns\":"@, x);
    lemma_join(t5, e.geo@, r6);
    lemma_join(t4, ",\"geo\":"@, r5);
    lemma_join(t3, json_quoted(e.modality@), r4);
    lemma_join(t2, "\",\"modality\":"@, r3);
    lemma_join(t1, severity_name(e.severity), r2);
    lemma_join(t0, "\",\"severity\":\""@, r1);
}

/// The third part tells its fields.
proof fn lemma_time_prefix(
    a: EnvironmentalEvent,
    b: EnvironmentalEvent,
    x: Seq<char>,
    y: Seq<char>,
)
    requires
        time_part(a) + x == time_part(b) + y,
    ensures
        a.window_start_ns == b.window_start_ns,
        a.window_end_ns == b.window_end_ns,
        a.detected_ns == b.detected_ns,
        x == y,
{
    lemma_time_separators();
    lemma_time_unfold(a, x);
    lemma_time_unfold(b, y);
    let a2 = decimal(a.detected_ns as nat) + (",\"evidence\":["@ + x);
    let b2 = decimal(b.detected_ns as nat) + (",\"evidence\":["@ + y);
    let a1 = decimal(a.window_end_ns as nat) + (",\"detected_ns\":"@ + a2);
    let b1 = decimal(b.window_end_ns as nat) + (",\"detected_ns\":"@ + b2);
    lemma_number_prefix(
        a.window_start_ns as nat,
        b.window_start_ns as nat,
        ",\"window_end_ns\":"@,
        a1,
        b1,
    );
    lemma_number_prefix(
        a.window_end_ns as nat,
        b.window_end_ns as nat,
        ",\"detected_ns\":"@,
        a2,
        b2,
    );
    lemma_number_prefix(a.detected_ns as nat, b.detected_ns as nat, ",\"evidence\":["@, x, y);
}

proof fn lemma_time_separators()
    ensures
        ",\"window_end_ns\":"@.len() > 0 && ",\"window_end_ns\":"@[0] == ',',
        ",\"detected_ns\":"@.len() > 0 && ",\"detected_ns\":"@[0] == ',',
        ",\"evidence\":["@.len() > 0 && ",\"evidence\":["@[0] == ',',
{
    reveal_strlit(",\"window_end_ns\":");
    reveal_strlit(",\"detected_ns\":");
    reveal_strlit(",\"evidence\":[");
}

proof fn lemma_time_unfold(e: EnvironmentalEvent, x: Seq<char>)
    ensures
        time_part(e) + x == decimal(e.window_start_ns as nat) + (",\"window_end_ns\":"@ + (decimal(
            e.window_end_ns as nat,
        ) + (",\"detected_ns\":"@ + (decimal(e.detected_ns as nat) + (",\"evidence\":["@ + x))))),
{
    let t0 = decimal(e.window_start_ns as nat);
    let t1 = t0 + ",\"window_end_ns\":"@;
    let t2 = t1 + decimal(e.window_end_ns as nat);
    let t3 = t2 + ",\"detected_ns\":"@;
    let t4 = t3 + decimal(e.detected_ns as nat);
    let r4 = ",\"evidence\":["@ + x;
    let r3 = decimal(e.detected_ns as nat) + r4;
    let r2 = ",\"detected_ns\":"@ + r3;
    let r1 = decimal(e.window_end_ns as nat) + r2;
    lemma_join(t4, ",\"evidence\":["@, x);
    lemma_join(t3, decimal(e.detected_ns as nat), r4);
    lemma_join(t2, ",\"detected_ns\":"@, r3);
    lemma_join(t1, decimal(e.window_end_ns as nat), r2);
    lemma_join(t0, ",\"window_end_ns\":"@, r1);
}

/// The last part tells its fields.
proof fn lemma_grounds_tell(a: EnvironmentalEvent, b: EnvironmentalEvent)
    requires
        plain_event(a),
        plain_event(b),
        grounds_part(a) == grounds_part(b),
    ensures
        a.evidence@ == b.evidence@,
        a.confidence@ == b.confidence@,
        a.message@ == b.message@,
{
    lemma_grounds_separators();
    lemma_grounds_unfold(a);
    lemma_grounds_unfold(b);
    let a2 = json_quoted(a.message@) + "}"@;
    let b2 = json_quoted(b.message@) + "}"@;
    let a1 = a.confidence@ + (",\"message\":"@ + a2);
    let b1 = b.confidence@ + (",\"message\":"@ + b2);
    lemma_evidence_prefix(
        a.evidence@,
        b.evidence@,
        "],\"confidence\":"@ + a1,
        "],\"confidence\":"@ + b1,
    );
    lemma_same_prefix("],\"confidence\":"@, a1, b1);
    lemma_field_prefix(a.confidence@, b.confidence@, ",\"message\":"@, a2, b2);
    lemma_quoted_prefix(a.message@, b.message@, "}"@, "}"@);
}

proof fn lemma_grounds_separators()
    ensures
        "],\"confidence\":"@.len() > 0 && "],\"confidence\":"@[0] == ']',
        ",\"message\":"@.len() > 0 && ",\"message\":"@[0] == ',',
{
    reveal_strlit("],\"confidence\":");
    reveal_strlit(",\"message\":");
}

proof fn lemma_grounds_unfold(e: EnvironmentalEvent)
    ensures
        grounds_part(e) == evidence_text(e.evidence@) + ("],\"confidence\":"@ + (e.confidence@
            + (",\"message\":"@ + (json_quoted(e.message@) + "}"@)))),
{
    let t0 = evidence_text(e.evidence@);
    let t1 = t0 + "],\"confidence\":"@;
    let t2 = t1 + e.confidence@;
    let t3 = t2 + ",\"message\":"@;
    let r3 = json_quoted(e.message@) + "}"@;
    let r2 = ",\"message\":"@ + r3;
    let r1 = e.confidence@ + r2;
    lemma_join(t3, json_quoted(e.message@), "}"@);
    lemma_join(t2, ",\"message\":"@, r3);
    lemma_join(t1, e.confidence@, r2);
    lemma_join(t0, "],\"confidence\":"@, r1);
}

/// **The signature covers the whole event.** Two events have the same
/// canonical bytes exactly where they say the same: whoever changes any field
/// but the signature's own changes the bytes that the signature is checked
/// against.
pub proof fn law_event_bytes_tell_content(a: EnvironmentalEvent, b: EnvironmentalEvent)
    requires
        plain_event(a),
        plain_event(b),
    ensures
        event_bytes(a) == event_bytes(b) <==> same_event(a, b),
{
    if event_bytes(a) == event_bytes(b) {
        encode_utf8_decode_utf8(canonical_event_text(a));
        encode_utf8_decode_utf8(canonical_event_text(b));
        lemma_event_unfold(a);
        lemma_event_unfold(b);
        lemma_identity_prefix(
            a,
            b,
            kind_part(a) + (time_part(a) + grounds_part(a)),
            kind_part(b) + (time_part(b) + grounds_part(b)),
        );
        lemma_kind_prefix(a, b, time_part(a) + grounds_part(a), time_part(b) + grounds_part(b));
        lemma_time_prefix(a, b, grounds_part(a), grounds_part(b));
        lemma_grounds_tell(a, b);
    }
}

proof fn lemma_event_unfold(e: EnvironmentalEvent)
    ensures
        canonical_event_text(e) == identity_part(e) + (kind_part(e) + (time_part(e)
            + grounds_part(e))),
{
    lemma_join(identity_part(e) + kind_part(e), time_part(e), grounds_part(e));
    lemma_join(identity_part(e), kind_part(e), time_part(e) + grounds_part(e));
}

} // verus!
