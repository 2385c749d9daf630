//! The texts that go over the wire and under a signature, said character by
//! character and field by field.

use crate::federation::events::{
    canonical_event_text, event_bytes, event_signed, event_valid, evidence_text, kind_name,
    severity_name,
};
use crate::federation::json::{json_escaped, json_quoted};
use crate::federation::sig::{
    detached_valid, ed25519_accepts, ed25519_public, ed25519_signature, hex_bytes, hex_text,
};
use crate::federation::summary::{
    canonical_bytes, canonical_text, entries_text, summary_valid, RegionalSummary, StatsView,
    SummaryView,
};
use crate::model::event::{EnvironmentalEvent, EventKind, EvidenceRef, Severity};
use crate::text::decimal;
use vstd::prelude::*;
use vstd::string::*;
use vstd::utf8::encode_utf8;

verus! {

// ---------------------------------------------------------------------------
// Hex
// ---------------------------------------------------------------------------

/// The character is a hex digit of this value.
pub open spec fn stands_for(c: char, value: int) -> bool {
    ||| '0' <= c && c <= '9' && value == c as int - '0' as int
    ||| 'a' <= c && c <= 'f' && value == c as int - 'a' as int + 10
    ||| 'A' <= c && c <= 'F' && value == c as int - 'A' as int + 10
}

/// **How bytes are written in hex**: two digits each, the higher one first, in
/// lower case.
pub proof fn law_hex_is_written(bytes: Seq<u8>, i: int)
    requires
        0 <= i < bytes.len(),
    ensures
        hex_text(bytes).len() == 2 * bytes.len(),
        stands_for(hex_text(bytes)[2 * i], bytes[i] as int / 16),
        stands_for(hex_text(bytes)[2 * i + 1], bytes[i] as int % 16),
        !('A' <= hex_text(bytes)[2 * i] && hex_text(bytes)[2 * i] <= 'F'),
        !('A' <= hex_text(bytes)[2 * i + 1] && hex_text(bytes)[2 * i + 1] <= 'F'),
{
    let b = bytes[i] as int;
    assert((2 * i) % 2 == 0 && (2 * i) / 2 == i);
    assert((2 * i + 1) % 2 == 1 && (2 * i + 1) / 2 == i);
    assert(0 <= b / 16 < 16 && 0 <= b % 16 < 16);
}

/// **How hex is read**: a text of even length that holds nothing but hex
/// digits, of either case, stands for the bytes of its pairs of digits; every
/// other text for nothing.
pub proof fn law_hex_is_read(s: Seq<char>, i: int)
    ensures
        hex_bytes(s) is Some <==> s.len() % 2 == 0 && forall|k: int|
            0 <= k < s.len() ==> {
                ||| '0' <= #[trigger] s[k] && s[k] <= '9'
                ||| 'a' <= s[k] && s[k] <= 'f'
                ||| 'A' <= s[k] && s[k] <= 'F'
            },
        hex_bytes(s) is Some ==> hex_bytes(s)->0.len() * 2 == s.len(),
        hex_bytes(s) is Some && 0 <= i < hex_bytes(s)->0.len() ==> exists|high: int, low: int|
            #![trigger stands_for(s[2 * i], high), stands_for(s[2 * i + 1], low)]
            stands_for(s[2 * i], high) && stands_for(s[2 * i + 1], low) && hex_bytes(s)->0[i]
                == 16 * high + low,
{
    if hex_bytes(s) is Some && 0 <= i < hex_bytes(s)->0.len() {
        let high = crate::federation::sig::hex_value(s[2 * i])->0;
        let low = crate::federation::sig::hex_value(s[2 * i + 1])->0;
        assert(stands_for(s[2 * i], high));
        assert(stands_for(s[2 * i + 1], low));
        assert(hex_bytes(s)->0[i] == 16 * high + low);
    }
    if s.len() % 2 == 0 && forall|k: int|
        0 <= k < s.len() ==> {
            ||| '0' <= #[trigger] s[k] && s[k] <= '9'
            ||| 'a' <= s[k] && s[k] <= 'f'
            ||| 'A' <= s[k] && s[k] <= 'F'
        } {
        assert forall|k: int| 0 <= k < s.len() implies crate::federation::sig::hex_value(
            #[trigger] s[k],
        ) is Some by {}
    }
    if hex_bytes(s) is Some {
        assert forall|k: int| 0 <= k < s.len() implies {
            ||| '0' <= #[trigger] s[k] && s[k] <= '9'
            ||| 'a' <= s[k] && s[k] <= 'f'
            ||| 'A' <= s[k] && s[k] <= 'F'
        } by {
            assert(crate::federation::sig::hex_value(s[k]) is Some);
        }
    }
}

/// **When a signature is valid**: key and signature are hex of 32 and 64 bytes,
/// and the key accepts the signature over the message.
pub proof fn law_signature_is_valid_where(
    pubkey_hex: Seq<char>,
    sig_hex: Seq<char>,
    msg: Seq<u8>,
)
    ensures
        detached_valid(pubkey_hex, sig_hex, msg) <==> {
            &&& hex_bytes(pubkey_hex) is Some
            &&& hex_bytes(sig_hex) is Some
            &&& pubkey_hex.len() == 64
            &&& sig_hex.len() == 128
            &&& ed25519_accepts(hex_bytes(pubkey_hex)->0, msg, hex_bytes(sig_hex)->0)
        },
{
}

/// **When a summary verifies**: it names a key and carries a signature of that
/// key over its canonical bytes.
pub proof fn law_summary_verifies_where(s: SummaryView)
    ensures
        summary_valid(s) <==> s.signature_hex is Some && s.signer_pubkey_hex is Some
            && detached_valid(s.signer_pubkey_hex->0, s.signature_hex->0, canonical_bytes(s)),
        canonical_bytes(s) == encode_utf8(canonical_text(s)),
{
}

/// **When an event verifies**: it names a key and carries a signature of that
/// key over its canonical bytes.
pub proof fn law_event_verifies_where(e: EnvironmentalEvent)
    ensures
        event_valid(e) <==> e.signature_hex is Some && e.signer_pubkey_hex is Some
            && detached_valid(e.signer_pubkey_hex->0@, e.signature_hex->0@, event_bytes(e)),
        event_bytes(e) == encode_utf8(canonical_event_text(e)),
{
}

/// **Signing an event adds a signature and changes nothing else**, not even the
/// bytes that are signed; the signature is over those bytes and by the key that
/// is named.
pub proof fn law_signing_event_adds_a_signature(
    before: EnvironmentalEvent,
    seed: Seq<u8>,
    after: EnvironmentalEvent,
)
    requires
        event_signed(before, seed, after),
    ensures
        after.spec_version == before.spec_version,
        after.event_id == before.event_id,
        after.biome_id == before.biome_id,
        after.kind == before.kind,
        after.severity == before.severity,
        after.modality == before.modality,
        after.geo == before.geo,
        after.window_start_ns == before.window_start_ns,
        after.window_end_ns == before.window_end_ns,
        after.detected_ns == before.detected_ns,
        after.evidence == before.evidence,
        after.confidence == before.confidence,
        after.message == before.message,
        event_bytes(after) == event_bytes(before),
        after.signature_hex is Some,
        after.signature_hex->0@ == hex_text(ed25519_signature(seed, event_bytes(before))),
        after.signer_pubkey_hex is Some,
        after.signer_pubkey_hex->0@ == hex_text(ed25519_public(seed)),
{
}

// ---------------------------------------------------------------------------
// Canonical texts
// ---------------------------------------------------------------------------

/// **Strings are quoted character by character**: quotes, backslashes and
/// control characters are escaped, every other character stands as it is.
pub proof fn law_strings_are_quoted(s: Seq<char>, c: char)
    ensures
        json_quoted(s) == seq!['"'] + json_escaped(s) + seq!['"'],
        json_escaped(Seq::empty()).len() == 0,
        c == '"' ==> json_escaped(seq![c] + s) == seq!['\\', '"'] + json_escaped(s),
        c == '\\' ==> json_escaped(seq![c] + s) == seq!['\\', '\\'] + json_escaped(s),
        c == '\n' ==> json_escaped(seq![c] + s) == seq!['\\', 'n'] + json_escaped(s),
        c == '\r' ==> json_escaped(seq![c] + s) == seq!['\\', 'r'] + json_escaped(s),
        c == '\t' ==> json_escaped(seq![c] + s) == seq!['\\', 't'] + json_escaped(s),
        c as u32 >= 32 && c != '"' && c != '\\' ==> json_escaped(seq![c] + s) == seq![c]
            + json_escaped(s),
{
    assert((seq![c] + s).skip(1) =~= s);
    assert((seq![c] + s)[0] == c);
}

/// **A summary is seen as its fields are.**
pub proof fn law_summary_is_seen_by_its_fields(s: RegionalSummary, i: int)
    ensures
        s@.spec_version == s.spec_version@,
        s@.biome_id == s.biome_id@,
        s@.window_start_ns == s.window_start_ns,
        s@.window_end_ns == s.window_end_ns,
        s@.stats.len() == s.stats@.len(),
        0 <= i < s.stats@.len() ==> {
            &&& s@.stats[i].0 == s.stats@[i].0@
            &&& s@.stats[i].1.count == s.stats@[i].1.count
            &&& s@.stats[i].1.mean == s.stats@[i].1.mean@
            &&& s@.stats[i].1.min == s.stats@[i].1.min@
            &&& s@.stats[i].1.max == s.stats@[i].1.max@
            &&& s@.stats[i].1.mean_quality == s.stats@[i].1.mean_quality@
        },
        s.signature_hex is Some <==> s@.signature_hex is Some,
        s.signature_hex is Some ==> s@.signature_hex->0 == s.signature_hex->0@,
        s.signer_pubkey_hex is Some <==> s@.signer_pubkey_hex is Some,
        s.signer_pubkey_hex is Some ==> s@.signer_pubkey_hex->0 == s.signer_pubkey_hex->0@,
{
}

/// **A summary is signed as compact JSON**: its fields in their order, then the
/// entries in theirs, with a comma between each two.
pub proof fn law_summary_is_written_as(
    s: SummaryView,
    stats: Seq<(Seq<char>, StatsView)>,
    name: Seq<char>,
    own: StatsView,
)
    ensures
        canonical_text(s) == "{\"spec_version\":"@ + json_quoted(s.spec_version) + ",\"biome_id\":"@
            + json_quoted(s.biome_id) + ",\"window_start_ns\":"@ + decimal(
            s.window_start_ns as nat,
        ) + ",\"window_end_ns\":"@ + decimal(s.window_end_ns as nat) + ",\"stats\":{"@
            + entries_text(s.stats) + "}}"@,
        entries_text(Seq::empty()).len() == 0,
        entries_text(stats.push((name, own))) == (if stats.len() == 0 {
            stats_text(name, own)
        } else {
            entries_text(stats) + ","@ + stats_text(name, own)
        }),
{
    crate::federation::summary::lemma_entries_push(stats, (name, own));
}

/// One modality with its count and figures.
pub open spec fn stats_text(name: Seq<char>, own: StatsView) -> Seq<char> {
    json_quoted(name) + ":{\"count\":"@ + decimal(own.count as nat) + ",\"mean\":"@ + own.mean
        + ",\"min\":"@ + own.min + ",\"max\":"@ + own.max + ",\"mean_quality\":"@
        + own.mean_quality + "}"@
}

/// **An event is signed as compact JSON**: its fields in their order, with its
/// pieces of evidence in theirs, a comma between each two.
pub proof fn law_event_is_written_as(
    e: EnvironmentalEvent,
    evidence: Seq<EvidenceRef>,
    r: EvidenceRef,
)
    ensures
        canonical_event_text(e) == ("{\"spec_version\":"@ + json_quoted(e.spec_version@)
            + ",\"event_id\":"@ + json_quoted(e.event_id@) + ",\"biome_id\":"@ + json_quoted(
            e.biome_id@,
        ) + ",\"kind\":\""@) + (kind_name(e.kind) + "\",\"severity\":\""@ + severity_name(
            e.severity,
        ) + "\",\"modality\":"@ + json_quoted(e.modality@) + ",\"geo\":"@ + e.geo@
            + ",\"window_start_ns\":"@) + (decimal(e.window_start_ns as nat)
            + ",\"window_end_ns\":"@ + decimal(e.window_end_ns as nat) + ",\"detected_ns\":"@
            + decimal(e.detected_ns as nat) + ",\"evidence\":["@) + (evidence_text(e.evidence@)
            + "],\"confidence\":"@ + e.confidence@ + ",\"message\":"@ + json_quoted(e.message@)
            + "}"@),
        evidence_text(Seq::empty()).len() == 0,
        evidence_text(evidence.push(r)) == (if evidence.len() == 0 {
            Seq::empty()
        } else {
            evidence_text(evidence) + ","@
        }) + ("{\"node_id\":"@ + decimal(r.node_id as nat) + ",\"sequence\":"@ + decimal(
            r.sequence as nat,
        ) + "}"@),
{
    crate::federation::events::lemma_evidence_push(evidence, r);
    let own = "{\"node_id\":"@ + decimal(r.node_id as nat) + ",\"sequence\":"@ + decimal(
        r.sequence as nat,
    ) + "}"@;
    assert(Seq::<char>::empty() + own =~= own);
}

/// **What kinds and severities are called.**
pub proof fn law_kinds_and_severities_are_called()
    ensures
        kind_name(EventKind::ThresholdExceeded) == "threshold_exceeded"@,
        kind_name(EventKind::Anomaly) == "anomaly"@,
        kind_name(EventKind::SensorTampered) == "sensor_tampered"@,
        kind_name(EventKind::SensorQuarantined) == "sensor_quarantined"@,
        kind_name(EventKind::DeviceRevoked) == "device_revoked"@,
        kind_name(EventKind::CalibrationDrift) == "calibration_drift"@,
        kind_name(EventKind::FloodRisk) == "flood_risk"@,
        kind_name(EventKind::WildfireRisk) == "wildfire_risk"@,
        kind_name(EventKind::CrossBoundaryAlert) == "cross_boundary_alert"@,
        severity_name(Severity::Advisory) == "advisory"@,
        severity_name(Severity::Watch) == "watch"@,
        severity_name(Severity::Warning) == "warning"@,
        severity_name(Severity::Critical) == "critical"@,
{
}

} // verus!
