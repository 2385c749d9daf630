//! Federation with peers: which revocations are applied, which summaries are
//! kept, and the steps of one pass over a peer.

use crate::federation::events::{event_valid, verify_event};
use crate::federation::summary::{option_text, summary_valid, verify_summary, RegionalSummary};
use crate::gateway::state::{Inner, PeerSummary};
use crate::model::event::{EnvironmentalEvent, EventKind};
use crate::text::{chars_of, decimal, decimal_text, same_text, texts};
use vstd::prelude::*;
use vstd::string::*;

verus! {

/// Window (seconds) requested from each peer's summary endpoint.
pub const PEER_SUMMARY_WINDOW_S: u64 = 3600;

/// The shortest time between two polls, in milliseconds.
pub const MIN_POLL_MS: u64 = 50;

// ---------------------------------------------------------------------------
// Revocations
// ---------------------------------------------------------------------------

/// Whether a peer's revocation event is to be applied: a revocation, signed
/// by the very key that the peer publishes, of a device that is registered
/// here, and not applied before.
pub open spec fn revocation_applies(
    inner: Inner,
    event: EnvironmentalEvent,
    peer_pubkey_hex: Seq<char>,
) -> bool {
    &&& event.kind == EventKind::DeviceRevoked
    &&& event.signer_pubkey_hex is Some
    &&& event.signer_pubkey_hex->0@ == peer_pubkey_hex
    &&& event_valid(event)
    &&& event.evidence@.len() > 0
    &&& !inner.applied_revocation_ids@.contains(event.event_id@)
    &&& inner.registry@.contains_key(event.evidence@[0].node_id)
}

/// `after` is the gateway once the event has been applied.
pub open spec fn revocation_applied(
    before: Inner,
    event: EnvironmentalEvent,
    after: Inner,
) -> bool {
    &&& after.registry@ == before.registry@.insert(event.evidence@[0].node_id, true)
    &&& after.applied_revocation_ids@ == before.applied_revocation_ids@.insert(event.event_id@)
    &&& after.applied_peer_revocations == before.applied_peer_revocations + 1
    &&& after == (Inner {
        registry: after.registry,
        applied_revocation_ids: after.applied_revocation_ids,
        applied_peer_revocations: after.applied_peer_revocations,
        ..before
    })
}

/// Apply one peer `DeviceRevoked` event to the local registry. `true` only
/// when the event was **verified and newly applied**:
///
/// - its kind is `DeviceRevoked`;
/// - its signer key is the peer's published key: peers may only revoke on
///   their own authority;
/// - its signature verifies over the canonical bytes;
/// - its `event_id` was not already applied;
/// - the target node is registered locally; otherwise the event is left for a
///   later pass.
pub fn apply_peer_revocation(
    inner: &mut Inner,
    event: &EnvironmentalEvent,
    peer_pubkey_hex: &str,
) -> (applied: bool)
    requires
        old(inner).applied_peer_revocations < u64::MAX,
    ensures
        applied == revocation_applies(*old(inner), *event, peer_pubkey_hex@),
        applied ==> revocation_applied(*old(inner), *event, *final(inner)),
        !applied ==> *final(inner) == *old(inner),
{
    match event.kind {
        EventKind::DeviceRevoked => {},
        _ => {
            return false;
        },
    }
    match &event.signer_pubkey_hex {
        Some(signer) => {
            if !same_text(signer.as_str(), peer_pubkey_hex) {
                return false;
            }
        },
        None => {
            return false;
        },
    }
    if !verify_event(event) {
        return false;
    }
    if event.evidence.len() == 0 {
        return false;
    }
    let node_id = event.evidence[0].node_id;
    if inner.applied_revocation_ids.contains(event.event_id.as_str()) {
        return false;
    }
    if !inner.registry.is_registered(node_id) {
        return false;
    }
    inner.registry.revoke(node_id);
    inner.applied_revocation_ids.insert(event.event_id.clone());
    inner.applied_peer_revocations = inner.applied_peer_revocations + 1;
    true
}

/// **A revocation is applied at most once**, by its event id.
pub proof fn law_revocation_is_applied_once(
    before: Inner,
    event: EnvironmentalEvent,
    after: Inner,
    again: EnvironmentalEvent,
    peer_pubkey_hex: Seq<char>,
)
    requires
        revocation_applied(before, event, after),
        again.event_id@ == event.event_id@,
    ensures
        !revocation_applies(after, again, peer_pubkey_hex),
{
}

/// **A revoked device stays revoked**: applying a revocation revokes its
/// target, and no device regains its standing by it.
pub proof fn law_revoked_stays_revoked(
    before: Inner,
    event: EnvironmentalEvent,
    after: Inner,
    node_id: u64,
)
    requires
        revocation_applied(before, event, after),
    ensures
        after.registry@.contains_key(event.evidence@[0].node_id),
        after.registry@[event.evidence@[0].node_id],
        before.registry@.contains_key(node_id) && before.registry@[node_id]
            ==> after.registry@.contains_key(node_id) && after.registry@[node_id],
{
}

/// **A peer revokes on its own authority only**: an event that any other key
/// signed is never applied, however valid.
pub proof fn law_foreign_revocation_is_refused(
    inner: Inner,
    event: EnvironmentalEvent,
    peer_pubkey_hex: Seq<char>,
)
    requires
        event.signer_pubkey_hex is None || event.signer_pubkey_hex->0@ != peer_pubkey_hex,
    ensures
        !revocation_applies(inner, event, peer_pubkey_hex),
{
}

/// **An event for an unknown device is kept for later**: once the device is
/// registered, and nothing else changed, it applies.
pub proof fn law_unregistered_node_is_retried(
    before: Inner,
    after: Inner,
    event: EnvironmentalEvent,
    peer_pubkey_hex: Seq<char>,
)
    requires
        event.kind == EventKind::DeviceRevoked,
        event.signer_pubkey_hex is Some && event.signer_pubkey_hex->0@ == peer_pubkey_hex,
        event_valid(event),
        event.evidence@.len() > 0,
        !before.applied_revocation_ids@.contains(event.event_id@),
        !before.registry@.contains_key(event.evidence@[0].node_id),
        after.registry@ == before.registry@.insert(event.evidence@[0].node_id, false),
        after.applied_revocation_ids == before.applied_revocation_ids,
    ensures
        !revocation_applies(before, event, peer_pubkey_hex),
        revocation_applies(after, event, peer_pubkey_hex),
{
}

// ---------------------------------------------------------------------------
// Summaries
// ---------------------------------------------------------------------------

/// The summaries of all peers but one, in their order.
pub open spec fn of_other_peers(summaries: Seq<PeerSummary>, peer: Seq<char>) -> Seq<PeerSummary>
    decreases summaries.len(),
{
    if summaries.len() == 0 {
        Seq::empty()
    } else {
        let before = of_other_peers(summaries.drop_last(), peer);
        if summaries.last().peer@ == peer {
            before
        } else {
            before.push(summaries.last())
        }
    }
}

/// Whether a peer's summary is to be kept: it verifies, under the very key
/// that the peer publishes.
pub open spec fn summary_is_genuine(summary: RegionalSummary, pubkey_hex: Seq<char>) -> bool {
    &&& summary_valid(summary@)
    &&& summary@.signer_pubkey_hex == Some(pubkey_hex)
}

/// `after` is the gateway once the peer's summary has taken the place of the
/// one before it.
pub open spec fn summary_recorded(
    before: Inner,
    peer: Seq<char>,
    summary: RegionalSummary,
    fetched_ns: u64,
    after: Inner,
) -> bool {
    let kept = of_other_peers(before.peer_summaries@, peer);
    &&& after.peer_summaries@.len() == kept.len() + 1
    &&& after.peer_summaries@.drop_last() == kept
    &&& after.peer_summaries@.last().peer@ == peer
    &&& after.peer_summaries@.last().summary == summary
    &&& after.peer_summaries@.last().fetched_ns == fetched_ns
    &&& after == (Inner { peer_summaries: after.peer_summaries, ..before })
}

/// Drop the summaries of one peer.
fn drop_peer(summaries: &mut Vec<PeerSummary>, peer: &str)
    ensures
        final(summaries)@ == of_other_peers(old(summaries)@, peer@),
{
    let ghost all = summaries@;
    let ghost mut k: int = 0;
    let mut i: usize = 0;
    proof {
        assert(all.take(0) =~= Seq::empty());
        assert(summaries@ =~= of_other_peers(all.take(0), peer@) + all.skip(0));
    }
    while i < summaries.len()
        invariant
            0 <= k <= all.len(),
            i == of_other_peers(all.take(k), peer@).len(),
            summaries@ == of_other_peers(all.take(k), peer@) + all.skip(k),
        decreases all.len() - k,
    {
        let ghost kept = of_other_peers(all.take(k), peer@);
        proof {
            assert(k < all.len());
            assert(summaries@[i as int] == all.skip(k)[0]);
            assert(all.take(k + 1).drop_last() =~= all.take(k));
            assert(all.take(k + 1).last() == all[k]);
            assert(all.skip(k).drop_first() =~= all.skip(k + 1));
        }
        if same_text(summaries[i].peer.as_str(), peer) {
            let ghost before = summaries@;
            summaries.remove(i);
            assert(summaries@ =~= before.remove(i as int));
            assert(summaries@ =~= kept + all.skip(k + 1));
        } else {
            assert(summaries@ =~= kept.push(all[k]) + all.skip(k + 1));
            i += 1;
        }
        proof {
            k = k + 1;
        }
    }
    assert(k == all.len());
    assert(all.take(k) =~= all);
    assert(summaries@ =~= of_other_peers(all, peer@));
}

/// Keep a peer's summary, where it verifies under the peer's published key, in
/// place of the one kept before; anything else changes nothing.
pub fn record_peer_summary(
    inner: &mut Inner,
    peer: &String,
    pubkey_hex: &str,
    summary: RegionalSummary,
    fetched_ns: u64,
) -> (recorded: bool)
    ensures
        recorded == summary_is_genuine(summary, pubkey_hex@),
        recorded ==> summary_recorded(*old(inner), peer@, summary, fetched_ns, *final(inner)),
        !recorded ==> *final(inner) == *old(inner),
{
    if !verify_summary(&summary) {
        return false;
    }
    match &summary.signer_pubkey_hex {
        Some(signer) => {
            if !same_text(signer.as_str(), pubkey_hex) {
                return false;
            }
        },
        None => {
            return false;
        },
    }
    drop_peer(&mut inner.peer_summaries, peer.as_str());
    let ghost kept = inner.peer_summaries@;
    inner.peer_summaries.push(PeerSummary { peer: peer.clone(), summary, fetched_ns });
    assert(inner.peer_summaries@.drop_last() =~= kept);
    true
}

/// At most one summary is kept per peer.
pub open spec fn one_per_peer(summaries: Seq<PeerSummary>) -> bool {
    forall|i: int, j: int|
        0 <= i < j < summaries.len() ==> (#[trigger] summaries[i]).peer@ != (
        #[trigger] summaries[j]).peer@
}

/// What is left without a peer.
proof fn lemma_of_other_peers(summaries: Seq<PeerSummary>, peer: Seq<char>)
    ensures
        forall|i: int|
            0 <= i < of_other_peers(summaries, peer).len() ==> (#[trigger] of_other_peers(
                summaries,
                peer,
            )[i]).peer@ != peer,
        forall|s: PeerSummary|
            summaries.contains(s) && s.peer@ != peer ==> #[trigger] of_other_peers(
                summaries,
                peer,
            ).contains(s),
        forall|s: PeerSummary| #[trigger]
            of_other_peers(summaries, peer).contains(s) ==> summaries.contains(s),
        one_per_peer(summaries) ==> one_per_peer(of_other_peers(summaries, peer)),
    decreases summaries.len(),
{
    if summaries.len() > 0 {
        let n = summaries.len() - 1;
        let fewer = summaries.drop_last();
        let before = of_other_peers(fewer, peer);
        let kept = of_other_peers(summaries, peer);
        lemma_of_other_peers(fewer, peer);
        assert forall|s: PeerSummary|
            summaries.contains(s) && s.peer@ != peer implies #[trigger] kept.contains(s) by {
            let i = choose|i: int| 0 <= i < summaries.len() && summaries[i] == s;
            if i < n {
                assert(fewer[i] == s);
                assert(before.contains(s));
                let k = choose|k: int| 0 <= k < before.len() && before[k] == s;
                assert(kept[k] == s);
            } else {
                assert(kept[kept.len() - 1] == s);
            }
        }
        assert forall|s: PeerSummary| #[trigger] kept.contains(s) implies summaries.contains(s) by {
            let k = choose|k: int| 0 <= k < kept.len() && kept[k] == s;
            if k < before.len() {
                assert(before[k] == s);
                assert(before.contains(s));
                assert(fewer.contains(s));
                let i = choose|i: int| 0 <= i < fewer.len() && fewer[i] == s;
                assert(summaries[i] == s);
            } else {
                assert(summaries[n] == s);
            }
        }
        if one_per_peer(summaries) {
            assert forall|i: int, j: int| 0 <= i < j < fewer.len() implies (
            #[trigger] fewer[i]).peer@ != (#[trigger] fewer[j]).peer@ by {
                assert(fewer[i] == summaries[i] && fewer[j] == summaries[j]);
            }
            assert forall|i: int, j: int| 0 <= i < j < kept.len() implies (
            #[trigger] kept[i]).peer@ != (#[trigger] kept[j]).peer@ by {
                assert(kept[i] == before[i]);
                if j < before.len() {
                    assert(kept[j] == before[j]);
                } else {
                    assert(before.contains(before[i]));
                    let m = choose|m: int| 0 <= m < fewer.len() && fewer[m] == before[i];
                    assert(summaries[m] == before[i]);
                    assert(kept[j] == summaries[n]);
                }
            }
        }
    }
}

/// **The latest summary of a peer is kept, and only that one**; those of other
/// peers stay.
pub proof fn law_latest_summary_per_peer(
    before: Inner,
    peer: Seq<char>,
    summary: RegionalSummary,
    fetched_ns: u64,
    after: Inner,
)
    requires
        one_per_peer(before.peer_summaries@),
        summary_recorded(before, peer, summary, fetched_ns, after),
    ensures
        one_per_peer(after.peer_summaries@),
        forall|s: PeerSummary|
            before.peer_summaries@.contains(s) && s.peer@ != peer
                ==> #[trigger] after.peer_summaries@.contains(s),
        forall|s: PeerSummary| #[trigger]
            after.peer_summaries@.contains(s) && s.peer@ == peer ==> s.summary == summary,
{
    let old_list = before.peer_summaries@;
    let list = after.peer_summaries@;
    let kept = of_other_peers(old_list, peer);
    lemma_of_other_peers(old_list, peer);
    assert forall|i: int| 0 <= i < kept.len() implies list[i] == kept[i] by {
        assert(list.drop_last()[i] == kept[i]);
    }
    assert forall|s: PeerSummary|
        old_list.contains(s) && s.peer@ != peer implies #[trigger] list.contains(s) by {
        assert(kept.contains(s));
        let k = choose|k: int| 0 <= k < kept.len() && kept[k] == s;
        assert(list[k] == s);
    }
    assert forall|i: int, j: int| 0 <= i < j < list.len() implies (#[trigger] list[i]).peer@ != (
    #[trigger] list[j]).peer@ by {
        assert(list[i] == kept[i]);
        if j < kept.len() {
            assert(list[j] == kept[j]);
        }
    }
}

// ---------------------------------------------------------------------------
// One pass over a peer
// ---------------------------------------------------------------------------

/// What the pass over a peer is to ask next.
#[derive(Debug, Clone, PartialEq, Eq)]
pub enum SyncStep {
    /// The peer's published key.
    AskPubkey,
    /// The peer's summary, to be held against its key.
    AskSummary {
        /// Peer biome identity.
        biome_id: String,
        /// Peer biome public key, hex.
        pubkey_hex: String,
    },
    /// The peer's revocations, to be held against its key.
    AskRevocations {
        /// Peer biome public key, hex.
        pubkey_hex: String,
    },
    /// Nothing: the pass is over.
    Finished,
}

/// What came back.
#[derive(Debug, Clone, PartialEq, Eq)]
pub enum SyncReply {
    /// The published key.
    Pubkey {
        /// Peer biome identity.
        biome_id: String,
        /// Peer biome public key, hex.
        pubkey_hex: String,
    },
    /// The summary.
    Summary(RegionalSummary),
    /// The revocation events.
    Revocations(Vec<EnvironmentalEvent>),
    /// The request failed, for this reason.
    Failed(String),
}

/// What a step did.
#[derive(Debug, Clone, PartialEq, Eq)]
pub enum SyncReport {
    /// The key was taken down.
    KeyNoted,
    /// The summary was recorded.
    SummaryRecorded,
    /// The summary did not verify and was skipped.
    SummarySkipped {
        /// The biome that the peer says it is.
        biome_id: String,
    },
    /// These revocations were applied, by event id.
    RevocationsApplied(Vec<String>),
    /// The pass ended early, for this reason.
    PassFailed(String),
    /// What came back was not what was asked for; the pass ended early.
    OutOfTurn,
}

/// `states` are the gateway before and after each of the events, applied one
/// after the other where they apply, and `ids` those that did.
pub open spec fn revocations_run(
    events: Seq<EnvironmentalEvent>,
    pubkey_hex: Seq<char>,
    states: Seq<Inner>,
    ids: Seq<Seq<char>>,
) -> bool
    decreases events.len(),
{
    &&& states.len() == events.len() + 1
    &&& if events.len() == 0 {
        ids.len() == 0
    } else {
        let n = events.len() - 1;
        let event = events[n];
        let before = states[n];
        let after = states[n + 1];
        if revocation_applies(before, event, pubkey_hex) {
            &&& revocation_applied(before, event, after)
            &&& ids.len() > 0
            &&& ids.last() == event.event_id@
            &&& revocations_run(events.drop_last(), pubkey_hex, states.drop_last(), ids.drop_last())
        } else {
            &&& after == before
            &&& revocations_run(events.drop_last(), pubkey_hex, states.drop_last(), ids)
        }
    }
}

/// Applying the events one after the other, where they apply, leads from
/// `before` to `after`; `ids` are those that did.
pub open spec fn revocations_lead(
    before: Inner,
    events: Seq<EnvironmentalEvent>,
    pubkey_hex: Seq<char>,
    ids: Seq<Seq<char>>,
    after: Inner,
) -> bool {
    exists|states: Seq<Inner>|
        states.len() > 0 && states[0] == before && states.last() == after
            && #[trigger] revocations_run(events, pubkey_hex, states, ids)
}

/// `result`, `report` and `after` are what a step owes.
pub open spec fn step_yields(
    before: Inner,
    peer: Seq<char>,
    step: SyncStep,
    reply: SyncReply,
    now_ns: u64,
    next: SyncStep,
    report: SyncReport,
    after: Inner,
) -> bool {
    match (step, reply) {
        (_, SyncReply::Failed(reason)) => {
            &&& next == SyncStep::Finished
            &&& report == SyncReport::PassFailed(reason)
            &&& after == before
        },
        (SyncStep::AskPubkey, SyncReply::Pubkey { biome_id, pubkey_hex }) => {
            &&& next == SyncStep::AskSummary { biome_id, pubkey_hex }
            &&& report == SyncReport::KeyNoted
            &&& after == before
        },
        (SyncStep::AskSummary { biome_id, pubkey_hex }, SyncReply::Summary(summary)) => {
            &&& next == SyncStep::AskRevocations { pubkey_hex }
            &&& if summary_is_genuine(summary, pubkey_hex@) {
                &&& report == SyncReport::SummaryRecorded
                &&& summary_recorded(before, peer, summary, now_ns, after)
            } else {
                &&& report == SyncReport::SummarySkipped { biome_id }
                &&& after == before
            }
        },
        (SyncStep::AskRevocations { pubkey_hex }, SyncReply::Revocations(events)) => {
            &&& next == SyncStep::Finished
            &&& report is RevocationsApplied
            &&& revocations_lead(
                before,
                events@,
                pubkey_hex@,
                texts(report->RevocationsApplied_0@),
                after,
            )
        },
        _ => {
            &&& next == SyncStep::Finished
            &&& report == SyncReport::OutOfTurn
            &&& after == before
        },
    }
}

/// Apply a peer's revocation events one after the other.
pub fn apply_revocations(
    inner: &mut Inner,
    events: &Vec<EnvironmentalEvent>,
    pubkey_hex: &str,
) -> (ids: Vec<String>)
    requires
        old(inner).applied_peer_revocations + events.len() <= u64::MAX,
    ensures
        revocations_lead(*old(inner), events@, pubkey_hex@, texts(ids@), *final(inner)),
        final(inner).applied_peer_revocations <= old(inner).applied_peer_revocations
            + events.len(),
{
    let mut ids: Vec<String> = Vec::new();
    let mut i: usize = 0;
    let ghost mut states: Seq<Inner> = seq![*inner];
    proof {
        assert(texts(ids@) =~= Seq::empty());
        assert(events@.take(0) =~= Seq::empty());
    }
    while i < events.len()
        invariant
            i <= events.len(),
            states.len() == i + 1,
            states[0] == *old(inner),
            states.last() == *inner,
            revocations_run(events@.take(i as int), pubkey_hex@, states, texts(ids@)),
            inner.applied_peer_revocations <= old(inner).applied_peer_revocations + i,
            old(inner).applied_peer_revocations + events.len() <= u64::MAX,
        decreases events.len() - i,
    {
        let ghost before = *inner;
        let ghost ids_before = texts(ids@);
        let ghost part = events@.take(i + 1);
        let applied = apply_peer_revocation(inner, &events[i], pubkey_hex);
        if applied {
            ids.push(events[i].event_id.clone());
        }
        proof {
            let longer = states.push(*inner);
            assert(longer.drop_last() =~= states);
            assert(part.drop_last() =~= events@.take(i as int));
            assert(part[i as int] == events@[i as int]);
            assert(longer[i as int] == before);
            if applied {
                assert(texts(ids@).drop_last() =~= ids_before);
            }
            assert(revocations_run(part, pubkey_hex@, longer, texts(ids@)));
            states = longer;
        }
        i += 1;
    }
    assert(events@.take(i as int) =~= events@);
    ids
}

/// Take one step of the pass over a peer: from what was asked and what came
/// back to what is to be asked next. Data that does not verify is skipped,
/// never applied and never repaired.
pub fn sync_step(
    inner: &mut Inner,
    peer: &String,
    step: SyncStep,
    reply: SyncReply,
    now_ns: u64,
) -> (result: (SyncStep, SyncReport))
    requires
        reply matches SyncReply::Revocations(events) ==> old(inner).applied_peer_revocations
            + events.len() <= u64::MAX,
    ensures
        step_yields(
            *old(inner),
            peer@,
            step,
            reply,
            now_ns,
            result.0,
            result.1,
            *final(inner),
        ),
{
    match (step, reply) {
        (_, SyncReply::Failed(reason)) => (SyncStep::Finished, SyncReport::PassFailed(reason)),
        (SyncStep::AskPubkey, SyncReply::Pubkey { biome_id, pubkey_hex }) => (
            SyncStep::AskSummary { biome_id, pubkey_hex },
            SyncReport::KeyNoted,
        ),
        (SyncStep::AskSummary { biome_id, pubkey_hex }, SyncReply::Summary(summary)) => {
            let recorded = record_peer_summary(inner, peer, pubkey_hex.as_str(), summary, now_ns);
            if recorded {
                (SyncStep::AskRevocations { pubkey_hex }, SyncReport::SummaryRecorded)
            } else {
                (SyncStep::AskRevocations { pubkey_hex }, SyncReport::SummarySkipped { biome_id })
            }
        },
        (SyncStep::AskRevocations { pubkey_hex }, SyncReply::Revocations(events)) => {
            let ids = apply_revocations(inner, &events, pubkey_hex.as_str());
            (SyncStep::Finished, SyncReport::RevocationsApplied(ids))
        },
        _ => (SyncStep::Finished, SyncReport::OutOfTurn),
    }
}

// ---------------------------------------------------------------------------
// Requests
// ---------------------------------------------------------------------------

/// The text without the slashes at its end.
pub open spec fn without_end_slashes(s: Seq<char>) -> Seq<char>
    decreases s.len(),
{
    if s.len() > 0 && s.last() == '/' {
        without_end_slashes(s.drop_last())
    } else {
        s
    }
}

/// Where a step asks, after the peer's base.
pub open spec fn step_path(step: SyncStep) -> Option<Seq<char>> {
    match step {
        SyncStep::AskPubkey => Some("/api/federation/pubkey"@),
        SyncStep::AskSummary { .. } => Some(
            "/api/federation/summary?window_s="@ + decimal(PEER_SUMMARY_WINDOW_S as nat),
        ),
        SyncStep::AskRevocations { .. } => Some("/api/federation/revocations"@),
        SyncStep::Finished => None,
    }
}

/// The address that a step asks of a peer.
pub open spec fn request_of(peer: Seq<char>, step: SyncStep) -> Option<Seq<char>> {
    match step_path(step) {
        Some(path) => Some(without_end_slashes(peer) + path),
        None => None,
    }
}

/// The text without the slashes at its end.
fn trim_end_slashes(s: &str) -> (out: String)
    ensures
        out@ == without_end_slashes(s@),
{
    let chars = chars_of(s);
    let mut end: usize = chars.len();
    assert(chars@.take(end as int) =~= s@);
    while end > 0 && chars[end - 1] == '/'
        invariant
            end <= chars.len(),
            without_end_slashes(chars@.take(end as int)) == without_end_slashes(s@),
        decreases end,
    {
        assert(chars@.take(end as int).drop_last() =~= chars@.take(end - 1));
        end = end - 1;
    }
    let mut out = String::new();
    let mut i: usize = 0;
    while i < end
        invariant
            i <= end <= chars.len(),
            out@ == chars@.take(i as int),
        decreases end - i,
    {
        out.push(chars[i]);
        assert(out@ =~= chars@.take(i + 1));
        i += 1;
    }
    out
}

/// The address that a step asks of a peer; none when the pass is over.
pub fn request_url(peer: &str, step: &SyncStep) -> (url: Option<String>)
    ensures
        match step_path(*step) {
            Some(path) => url is Some && url->0@ == without_end_slashes(peer@) + path,
            None => url is None,
        },
        option_text(url) == request_of(peer@, *step),
{
    let mut url = trim_end_slashes(peer);
    match step {
        SyncStep::AskPubkey => {
            url.append("/api/federation/pubkey");
        },
        SyncStep::AskSummary { .. } => {
            url.append("/api/federation/summary?window_s=");
            url.append(decimal_text(PEER_SUMMARY_WINDOW_S).as_str());
            assert(url@ =~= without_end_slashes(peer@) + step_path(*step)->0);
        },
        SyncStep::AskRevocations { .. } => {
            url.append("/api/federation/revocations");
        },
        SyncStep::Finished => {
            return None;
        },
    }
    Some(url)
}

/// The time between two polls that a configured one comes to, in
/// milliseconds.
pub fn poll_interval_ms(poll_ms: u64) -> (interval: u64)
    ensures
        interval == if poll_ms < MIN_POLL_MS {
            MIN_POLL_MS
        } else {
            poll_ms
        },
        interval >= 50 && interval >= poll_ms,
        interval == 50 || interval == poll_ms,
{
    if poll_ms < MIN_POLL_MS {
        MIN_POLL_MS
    } else {
        poll_ms
    }
}

} // verus!
