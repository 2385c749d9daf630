//! What the gateway promises, said on the fields of its state and of what
//! comes in.

use crate::federation::events::event_valid;
use crate::federation::summary::{summary_valid, RegionalSummary};
use crate::gateway::clock::reading_ns;
use crate::gateway::federation::{
    of_other_peers, request_of, revocation_applied, revocation_applies, revocations_lead,
    revocations_run, step_path, step_yields, summary_is_genuine, summary_recorded,
    without_end_slashes, SyncReply, SyncReport, SyncStep,
};
use crate::gateway::seed::seed_of;
use crate::gateway::state::{
    open_gateway_yields, with_device, with_revoked, GatewayConfig, Inner, PeerSummary,
};
use crate::model::event::{EnvironmentalEvent, EventKind};
use crate::store::events::EventStore;
use crate::store::observations::ObservationStore;
use crate::text::{decimal, texts};
use vstd::prelude::*;
use vstd::string::*;
use vstd::utf8::encode_utf8;

verus! {

// ---------------------------------------------------------------------------
// Revocations
// ---------------------------------------------------------------------------

/// **A revocation touches its target only.** The device that its first piece of
/// evidence names is revoked; every other device is registered exactly where
/// it was, in the standing it had.
pub proof fn law_revocation_touches_its_target_only(
    before: Inner,
    event: EnvironmentalEvent,
    after: Inner,
    node_id: u64,
)
    requires
        revocation_applied(before, event, after),
    ensures
        after.registry@.contains_key(event.evidence@[0].node_id),
        after.registry@[event.evidence@[0].node_id],
        node_id != event.evidence@[0].node_id ==> {
            &&& after.registry@.contains_key(node_id) == before.registry@.contains_key(node_id)
            &&& before.registry@.contains_key(node_id) ==> after.registry@[node_id]
                == before.registry@[node_id]
        },
{
}

/// **An applied revocation is remembered by its id and counted, and changes
/// nothing else.**
pub proof fn law_revocation_is_remembered_and_counted(
    before: Inner,
    event: EnvironmentalEvent,
    after: Inner,
    id: Seq<char>,
)
    requires
        revocation_applied(before, event, after),
    ensures
        after.applied_revocation_ids@.contains(id) <==> before.applied_revocation_ids@.contains(id)
            || id == event.event_id@,
        after.applied_peer_revocations == before.applied_peer_revocations + 1,
        keeps_the_rest(before, after),
        after.peer_summaries == before.peer_summaries,
{
}

/// What no revocation and no summary touches is as it was.
pub open spec fn keeps_the_rest(before: Inner, after: Inner) -> bool {
    &&& after.calibration == before.calibration
    &&& after.biome == before.biome
    &&& after.obs == before.obs
    &&& after.events == before.events
    &&& after.alerts == before.alerts
    &&& after.calibration_errors == before.calibration_errors
    &&& after.datagrams == before.datagrams
}

/// **When a revocation is applied**: it is a revocation, signed by the peer's
/// own key, verifies, was not applied before, and names a device that is
/// registered here. Nothing else has a say, not the standing of the device, nor
/// when, how certain or how severe the event is.
pub proof fn law_revocation_is_decided_by(
    inner: Inner,
    event: EnvironmentalEvent,
    peer_pubkey_hex: Seq<char>,
)
    ensures
        revocation_applies(inner, event, peer_pubkey_hex) <==> {
            &&& event.kind == EventKind::DeviceRevoked
            &&& event.signer_pubkey_hex is Some
            &&& event.signer_pubkey_hex->0@ == peer_pubkey_hex
            &&& event_valid(event)
            &&& event.evidence@.len() > 0
            &&& !inner.applied_revocation_ids@.contains(event.event_id@)
            &&& inner.registry@.contains_key(event.evidence@[0].node_id)
        },
{
}

/// Some event of the list, a verified revocation by the key, names the device.
pub open spec fn named_by(
    events: Seq<EnvironmentalEvent>,
    pubkey_hex: Seq<char>,
    node_id: u64,
) -> bool {
    exists|i: int|
        {
            &&& 0 <= i < events.len()
            &&& (#[trigger] events[i]).kind == EventKind::DeviceRevoked
            &&& events[i].signer_pubkey_hex is Some
            &&& events[i].signer_pubkey_hex->0@ == pubkey_hex
            &&& event_valid(events[i])
            &&& events[i].evidence@.len() > 0
            &&& events[i].evidence@[0].node_id == node_id
        }
}

/// What a run of revocations comes to.
proof fn lemma_run(
    events: Seq<EnvironmentalEvent>,
    pubkey_hex: Seq<char>,
    states: Seq<Inner>,
    ids: Seq<Seq<char>>,
)
    requires
        revocations_run(events, pubkey_hex, states, ids),
    ensures
        ({
            let before = states[0];
            let after = states.last();
            &&& after.registry@.dom() == before.registry@.dom()
            &&& forall|n: u64| #[trigger]
                before.registry@.contains_key(n) && before.registry@[n] ==> after.registry@[n]
            &&& forall|n: u64| #[trigger]
                before.registry@.contains_key(n) && !before.registry@[n] && after.registry@[n]
                    ==> named_by(events, pubkey_hex, n)
            &&& after.applied_peer_revocations == before.applied_peer_revocations + ids.len()
            &&& forall|id: Seq<char>| #[trigger]
                after.applied_revocation_ids@.contains(id) <==> (
                before.applied_revocation_ids@.contains(id) || ids.contains(id))
            &&& ids.no_duplicates()
            &&& forall|i: int|
                0 <= i < ids.len() ==> !before.applied_revocation_ids@.contains(#[trigger] ids[i])
            &&& forall|i: int|
                0 <= i < ids.len() ==> exists|k: int|
                    0 <= k < events.len() && (#[trigger] events[k]).event_id@ == #[trigger] ids[i]
            &&& keeps_the_rest(before, after)
            &&& after.peer_summaries == before.peer_summaries
        }),
    decreases events.len(),
{
    if events.len() > 0 {
        let n = events.len() - 1;
        let event = events[n];
        let fewer = events.drop_last();
        let earlier = states.drop_last();
        let middle = states[n];
        let after = states[n + 1];
        let before = states[0];
        let applies = revocation_applies(middle, event, pubkey_hex);
        let old_ids = if applies {
            ids.drop_last()
        } else {
            ids
        };
        lemma_run(fewer, pubkey_hex, earlier, old_ids);
        assert(earlier[0] == before && earlier.last() == middle);
        assert forall|x: u64| named_by(fewer, pubkey_hex, x) implies named_by(
            events,
            pubkey_hex,
            x,
        ) by {
            let i = choose|i: int|
                {
                    &&& 0 <= i < fewer.len()
                    &&& (#[trigger] fewer[i]).kind == EventKind::DeviceRevoked
                    &&& fewer[i].signer_pubkey_hex is Some
                    &&& fewer[i].signer_pubkey_hex->0@ == pubkey_hex
                    &&& event_valid(fewer[i])
                    &&& fewer[i].evidence@.len() > 0
                    &&& fewer[i].evidence@[0].node_id == x
                };
            assert(events[i] == fewer[i]);
        }
        assert forall|i: int| 0 <= i < old_ids.len() implies exists|k: int|
            0 <= k < events.len() && (#[trigger] events[k]).event_id@ == #[trigger] old_ids[i] by {
            let k = choose|k: int|
                0 <= k < fewer.len() && (#[trigger] fewer[k]).event_id@ == old_ids[i];
            assert(events[k] == fewer[k]);
        }
        if applies {
            let target = event.evidence@[0].node_id;
            assert(named_by(events, pubkey_hex, target)) by {
                assert(events[n] == event);
            }
            assert(after.registry@.dom() =~= before.registry@.dom());
            assert(ids =~= old_ids.push(event.event_id@));
            assert(!old_ids.contains(event.event_id@));
            assert forall|i: int, j: int|
                0 <= i < ids.len() && 0 <= j < ids.len() && i != j implies ids[i] != ids[j] by {
                if i == old_ids.len() {
                    assert(old_ids.contains(old_ids[j]));
                } else if j == old_ids.len() {
                    assert(old_ids.contains(old_ids[i]));
                } else {
                    assert(old_ids[i] != old_ids[j]);
                }
            }
            assert forall|id: Seq<char>| #[trigger]
                after.applied_revocation_ids@.contains(id) <==> (
                before.applied_revocation_ids@.contains(id) || ids.contains(id)) by {
                if old_ids.contains(id) {
                    let i = choose|i: int| 0 <= i < old_ids.len() && old_ids[i] == id;
                    assert(ids[i] == id);
                }
                if id == event.event_id@ {
                    assert(ids[old_ids.len() as int] == id);
                }
                if ids.contains(id) && id != event.event_id@ {
                    let i = choose|i: int| 0 <= i < ids.len() && ids[i] == id;
                    assert(old_ids[i] == id);
                }
                assert(middle.applied_revocation_ids@.contains(id) <==> (
                before.applied_revocation_ids@.contains(id) || old_ids.contains(id)));
            }
            let known = before.applied_revocation_ids@;
            assert forall|i: int| 0 <= i < ids.len() implies !known.contains(
                #[trigger] ids[i],
            ) by {
                if i < old_ids.len() {
                    assert(ids[i] == old_ids[i]);
                } else {
                    assert(ids[i] == event.event_id@);
                    assert(!middle.applied_revocation_ids@.contains(event.event_id@));
                }
            }
            assert forall|i: int| 0 <= i < ids.len() implies exists|k: int|
                0 <= k < events.len() && (#[trigger] events[k]).event_id@ == #[trigger] ids[i] by {
                if i < old_ids.len() {
                    assert(ids[i] == old_ids[i]);
                } else {
                    assert(events[n].event_id@ == ids[i]);
                }
            }
            assert forall|x: u64| #[trigger]
                before.registry@.contains_key(x)
                    && before.registry@[x] implies after.registry@[x] by {
                assert(middle.registry@[x]);
            }
            assert forall|x: u64| #[trigger]
                before.registry@.contains_key(x) && !before.registry@[x]
                    && after.registry@[x] implies named_by(events, pubkey_hex, x) by {
                if x != target {
                    assert(middle.registry@[x]);
                    assert(named_by(fewer, pubkey_hex, x));
                }
            }
        }
    } else {
        assert(states.last() == states[0]);
        assert forall|id: Seq<char>| !ids.contains(id) by {}
    }
}

/// **A list of revocations revokes what it names and nothing else.** Devices
/// come neither in nor out; one that was revoked stays so; one that was not is
/// afterwards only where a verified revocation by the peer's key names it. The
/// ids that are reported are of the list, new and each there once; they are
/// remembered and counted, and nothing else changes.
pub proof fn law_revocations_revoke_what_they_name(
    before: Inner,
    events: Seq<EnvironmentalEvent>,
    pubkey_hex: Seq<char>,
    ids: Seq<Seq<char>>,
    after: Inner,
    node_id: u64,
    id: Seq<char>,
)
    requires
        revocations_lead(before, events, pubkey_hex, ids, after),
    ensures
        after.registry@.contains_key(node_id) == before.registry@.contains_key(node_id),
        before.registry@.contains_key(node_id) && before.registry@[node_id]
            ==> after.registry@[node_id],
        before.registry@.contains_key(node_id) && !before.registry@[node_id]
            && after.registry@[node_id] ==> named_by(events, pubkey_hex, node_id),
        after.applied_peer_revocations == before.applied_peer_revocations + ids.len(),
        after.applied_revocation_ids@.contains(id) <==> before.applied_revocation_ids@.contains(id)
            || ids.contains(id),
        ids.no_duplicates(),
        ids.contains(id) ==> !before.applied_revocation_ids@.contains(id) && exists|k: int|
            0 <= k < events.len() && (#[trigger] events[k]).event_id@ == id,
        keeps_the_rest(before, after),
        after.peer_summaries == before.peer_summaries,
{
    let states = choose|states: Seq<Inner>|
        states.len() > 0 && states[0] == before && states.last() == after
            && #[trigger] revocations_run(events, pubkey_hex, states, ids);
    lemma_run(events, pubkey_hex, states, ids);
    assert(before.registry@.dom().contains(node_id) == after.registry@.dom().contains(node_id));
    if ids.contains(id) {
        let i = choose|i: int| 0 <= i < ids.len() && ids[i] == id;
        assert(!before.applied_revocation_ids@.contains(ids[i]));
    }
}

/// What becomes of one event in a run.
proof fn lemma_event_in_run(
    events: Seq<EnvironmentalEvent>,
    pubkey_hex: Seq<char>,
    states: Seq<Inner>,
    ids: Seq<Seq<char>>,
    k: int,
)
    requires
        revocations_run(events, pubkey_hex, states, ids),
        0 <= k < events.len(),
        events[k].kind == EventKind::DeviceRevoked,
        events[k].signer_pubkey_hex is Some,
        events[k].signer_pubkey_hex->0@ == pubkey_hex,
        event_valid(events[k]),
        events[k].evidence@.len() > 0,
        states[0].registry@.contains_key(events[k].evidence@[0].node_id),
        !states[0].applied_revocation_ids@.contains(events[k].event_id@),
        forall|j: int|
            0 <= j < events.len() && j != k ==> (#[trigger] events[j]).event_id@
                != events[k].event_id@,
    ensures
        states.last().registry@[events[k].evidence@[0].node_id],
        ids.contains(events[k].event_id@),
    decreases events.len(),
{
    let n = events.len() - 1;
    let fewer = events.drop_last();
    let earlier = states.drop_last();
    let applies = revocation_applies(states[n], events[n], pubkey_hex);
    let old_ids = if applies {
        ids.drop_last()
    } else {
        ids
    };
    lemma_run(fewer, pubkey_hex, earlier, old_ids);
    assert(earlier[0] == states[0] && earlier.last() == states[n]);
    let target = events[k].evidence@[0].node_id;
    assert(states[n].registry@.dom().contains(target));
    if k < n {
        assert(fewer[k] == events[k]);
        assert forall|j: int| 0 <= j < fewer.len() && j != k implies (
        #[trigger] fewer[j]).event_id@ != fewer[k].event_id@ by {
            assert(fewer[j] == events[j]);
        }
        lemma_event_in_run(fewer, pubkey_hex, earlier, old_ids, k);
        let i = choose|i: int| 0 <= i < old_ids.len() && old_ids[i] == events[k].event_id@;
        assert(ids[i] == events[k].event_id@);
    } else {
        if old_ids.contains(events[k].event_id@) {
            let i = choose|i: int| 0 <= i < old_ids.len() && old_ids[i] == events[k].event_id@;
            let m = choose|m: int|
                0 <= m < fewer.len() && (#[trigger] fewer[m]).event_id@ == old_ids[i];
            assert(events[m] == fewer[m]);
        }
        assert(!states[n].applied_revocation_ids@.contains(events[k].event_id@));
        assert(applies);
        assert(ids[ids.len() - 1] == events[k].event_id@);
    }
}

/// **Every revocation of the list that is due is applied**, wherever it stands
/// in the list: a verified revocation by the peer's key, of a registered
/// device, under an id that is new and that no other event of the list has.
pub proof fn law_due_revocation_is_applied(
    before: Inner,
    events: Seq<EnvironmentalEvent>,
    pubkey_hex: Seq<char>,
    ids: Seq<Seq<char>>,
    after: Inner,
    k: int,
)
    requires
        revocations_lead(before, events, pubkey_hex, ids, after),
        0 <= k < events.len(),
        events[k].kind == EventKind::DeviceRevoked,
        events[k].signer_pubkey_hex is Some,
        events[k].signer_pubkey_hex->0@ == pubkey_hex,
        event_valid(events[k]),
        events[k].evidence@.len() > 0,
        before.registry@.contains_key(events[k].evidence@[0].node_id),
        !before.applied_revocation_ids@.contains(events[k].event_id@),
        forall|j: int|
            0 <= j < events.len() && j != k ==> (#[trigger] events[j]).event_id@
                != events[k].event_id@,
    ensures
        after.registry@[events[k].evidence@[0].node_id],
        ids.contains(events[k].event_id@),
{
    let states = choose|states: Seq<Inner>|
        states.len() > 0 && states[0] == before && states.last() == after
            && #[trigger] revocations_run(events, pubkey_hex, states, ids);
    lemma_event_in_run(events, pubkey_hex, states, ids, k);
}

// ---------------------------------------------------------------------------
// Summaries of peers
// ---------------------------------------------------------------------------

/// The summaries of other peers are those whose peer is another.
proof fn lemma_other_peers(summaries: Seq<PeerSummary>, peer: Seq<char>)
    ensures
        of_other_peers(summaries, peer) == summaries.filter(|s: PeerSummary| s.peer@ != peer),
    decreases summaries.len(),
{
    reveal(Seq::filter);
    if summaries.len() > 0 {
        lemma_other_peers(summaries.drop_last(), peer);
    }
}

/// **A recorded summary takes the place of its peer's.** The entries of all
/// other peers stay as they were, in their order, and behind them stands one
/// entry with the peer, the summary and the time of fetching; nothing else
/// changes.
pub proof fn law_summary_takes_its_peers_place(
    before: Inner,
    peer: Seq<char>,
    summary: RegionalSummary,
    fetched_ns: u64,
    after: Inner,
)
    requires
        summary_recorded(before, peer, summary, fetched_ns, after),
    ensures
        ({
            let list = after.peer_summaries@;
            &&& list.len() > 0
            &&& list.drop_last() == before.peer_summaries@.filter(
                |s: PeerSummary| s.peer@ != peer,
            )
            &&& list.last().peer@ == peer
            &&& list.last().summary == summary
            &&& list.last().fetched_ns == fetched_ns
        }),
        after.registry == before.registry,
        after.applied_revocation_ids == before.applied_revocation_ids,
        after.applied_peer_revocations == before.applied_peer_revocations,
        keeps_the_rest(before, after),
{
    lemma_other_peers(before.peer_summaries@, peer);
}

/// **Which summary of a peer is kept**: one that verifies and that the peer's
/// own key signed; nothing else about it has a say.
pub proof fn law_summary_is_kept_where(summary: RegionalSummary, pubkey_hex: Seq<char>)
    ensures
        summary_is_genuine(summary, pubkey_hex) <==> {
            &&& summary_valid(summary@)
            &&& summary.signer_pubkey_hex is Some
            &&& summary.signer_pubkey_hex->0@ == pubkey_hex
        },
{
}

// ---------------------------------------------------------------------------
// One pass over a peer
// ---------------------------------------------------------------------------

/// **The order of a pass**: the key, then the summary, then the revocations,
/// each held against the key that came first; a failed request or an answer out
/// of turn ends it.
pub proof fn law_pass_goes_in_order(
    before: Inner,
    peer: Seq<char>,
    step: SyncStep,
    reply: SyncReply,
    now_ns: u64,
    next: SyncStep,
    report: SyncReport,
    after: Inner,
)
    requires
        step_yields(before, peer, step, reply, now_ns, next, report, after),
    ensures
        next != SyncStep::AskPubkey,
        next is AskSummary <==> step is AskPubkey && reply is Pubkey,
        next is AskSummary ==> next->AskSummary_biome_id == reply->Pubkey_biome_id
            && next->AskSummary_pubkey_hex == reply->Pubkey_pubkey_hex,
        next is AskRevocations <==> step is AskSummary && reply is Summary,
        next is AskRevocations ==> next->AskRevocations_pubkey_hex == step->AskSummary_pubkey_hex,
        reply is Failed <==> report is PassFailed,
        reply is Failed ==> report->PassFailed_0 == reply->Failed_0,
        report == SyncReport::KeyNoted <==> step is AskPubkey && reply is Pubkey,
        report == SyncReport::SummaryRecorded || report is SummarySkipped <==> step is AskSummary
            && reply is Summary,
        report is RevocationsApplied <==> step is AskRevocations && reply is Revocations,
{
}

/// **Nothing unverified is taken in.** A pass changes the gateway only by a
/// summary that verifies under the peer's key, or by the peer's revocations;
/// the summary of a biome that does not verify is reported under the name that
/// the peer gave.
pub proof fn law_nothing_unverified_is_taken_in(
    before: Inner,
    peer: Seq<char>,
    step: SyncStep,
    reply: SyncReply,
    now_ns: u64,
    next: SyncStep,
    report: SyncReport,
    after: Inner,
)
    requires
        step_yields(before, peer, step, reply, now_ns, next, report, after),
    ensures
        !(step is AskSummary && reply is Summary) && !(step is AskRevocations
            && reply is Revocations) ==> after == before,
        step is AskSummary && reply is Summary ==> {
            let summary = reply->Summary_0;
            let genuine = summary_valid(summary@) && summary.signer_pubkey_hex is Some
                && summary.signer_pubkey_hex->0@ == step->AskSummary_pubkey_hex@;
            &&& genuine ==> report == SyncReport::SummaryRecorded && summary_recorded(
                before,
                peer,
                summary,
                now_ns,
                after,
            )
            &&& !genuine ==> after == before && report == SyncReport::SummarySkipped {
                biome_id: step->AskSummary_biome_id,
            }
        },
        step is AskRevocations && reply is Revocations ==> revocations_lead(
            before,
            reply->Revocations_0@,
            step->AskRevocations_pubkey_hex@,
            texts(report->RevocationsApplied_0@),
            after,
        ),
{
}

/// **Where a peer is asked.** The base of its address is the address without
/// the slashes at its end, all of them and nothing else; behind it stands the
/// path of what is asked, for the summary with a window of an hour.
pub proof fn law_requests_go_to(peer: Seq<char>, step: SyncStep)
    ensures
        ({
            let base = without_end_slashes(peer);
            &&& base.len() <= peer.len()
            &&& base == peer.take(base.len() as int)
            &&& base.len() > 0 ==> base.last() != '/'
            &&& forall|i: int| base.len() <= i < peer.len() ==> #[trigger] peer[i] == '/'
        }),
        step_path(step) == match step {
            SyncStep::AskPubkey => Some("/api/federation/pubkey"@),
            SyncStep::AskSummary { .. } => Some(
                "/api/federation/summary?window_s="@ + decimal(3600),
            ),
            SyncStep::AskRevocations { .. } => Some("/api/federation/revocations"@),
            SyncStep::Finished => None,
        },
    decreases peer.len(),
{
    if peer.len() > 0 && peer.last() == '/' {
        law_requests_go_to(peer.drop_last(), step);
        let base = without_end_slashes(peer);
        assert(base =~= peer.take(base.len() as int));
        assert forall|i: int| base.len() <= i < peer.len() implies #[trigger] peer[i] == '/' by {
            if i < peer.len() - 1 {
                assert(peer.drop_last()[i] == peer[i]);
            }
        }
    } else {
        assert(peer.take(peer.len() as int) =~= peer);
    }
}

/// **Slashes at the end of a peer's address count for nothing**, however many:
/// where it ends in another character, the path follows it directly.
pub proof fn law_request_ignores_end_slashes(peer: Seq<char>, step: SyncStep)
    ensures
        request_of(peer.push('/'), step) == request_of(peer, step),
        request_of(peer, step) is None <==> step is Finished,
        peer.len() > 0 && peer.last() != '/' ==> {
            &&& step is AskPubkey ==> request_of(peer, step)->0 == peer
                + "/api/federation/pubkey"@
            &&& step is AskSummary ==> request_of(peer, step)->0 == peer + (
            "/api/federation/summary?window_s="@ + decimal(3600))
            &&& step is AskRevocations ==> request_of(peer, step)->0 == peer
                + "/api/federation/revocations"@
        },
{
    assert(peer.push('/').drop_last() =~= peer);
}

// ---------------------------------------------------------------------------
// Devices
// ---------------------------------------------------------------------------

/// **What registering and revoking do.** A device that is registered is in good
/// standing; one that is registered and then revoked is not; one that is not
/// registered cannot be revoked; and no other device is touched by either.
pub proof fn law_standing_of_devices(devices: Map<u64, bool>, node_id: u64, other: u64)
    ensures
        ({
            let after = with_device(devices, node_id);
            &&& after.contains_key(node_id)
            &&& !after[node_id]
            &&& other != node_id ==> after.contains_key(other) == devices.contains_key(other)
            &&& other != node_id && devices.contains_key(other) ==> after[other] == devices[other]
        }),
        ({
            let after = with_revoked(devices, node_id);
            &&& after.contains_key(other) == devices.contains_key(other)
            &&& devices.contains_key(node_id) ==> after[node_id]
            &&& other != node_id && devices.contains_key(other) ==> after[other] == devices[other]
        }),
{
}

// ---------------------------------------------------------------------------
// Identity and time
// ---------------------------------------------------------------------------

/// **What the seed is made of.** Byte by byte the id, repeated as often as it
/// takes, mixed with the bytes of the number from the lowest up and with a
/// multiple of the place.
pub proof fn law_seed_bytes(id: Seq<u8>, n: u64, i: int)
    requires
        0 <= i < 32,
    ensures
        seed_of(id, n).len() == 32,
        id.len() > 0 ==> seed_of(id, n)[i] == id[i % id.len() as int] ^ ((n >> ((8 * (i
            % 8)) as u64)) as u8) ^ (((i * 0x9E) % 256) as u8),
        id.len() == 0 ==> seed_of(id, n)[i] == 0x7Au8 ^ ((n >> ((8 * (i % 8)) as u64)) as u8) ^ (((i
            * 0x9E) % 256) as u8),
{
}

/// **Time is what the clock says**: nanoseconds where they fit, the highest
/// number where they do not, zero before the epoch; a later reading is never an
/// earlier time.
pub proof fn law_time_follows_the_clock(a: u128, b: u128)
    ensures
        a <= 0xFFFF_FFFF_FFFF_FFFF ==> reading_ns(Some(a)) == a,
        a > 0xFFFF_FFFF_FFFF_FFFF ==> reading_ns(Some(a)) == 0xFFFF_FFFF_FFFF_FFFFu64,
        reading_ns(None) == 0,
        a <= b ==> reading_ns(Some(a)) <= reading_ns(Some(b)),
{
}

/// **A gateway starts empty, with its own identity.** Its stores are those that
/// were opened, for segments of 4096 samples and 1024 events; its biome has the
/// configured id and version and the seed of the id and the number; it knows no
/// device, no record and no peer, and has counted nothing.
pub proof fn law_gateway_starts_empty<
    O: FnOnce(usize) -> Result<ObservationStore, String>,
    E: FnOnce(usize) -> Result<EventStore, String>,
>(config: GatewayConfig, open_obs: O, open_events: E, inner: Inner)
    requires
        open_gateway_yields(config, open_obs, open_events, Ok(inner)),
    ensures
        call_ensures(open_obs, (4096usize,), Ok(inner.obs)),
        call_ensures(open_events, (1024usize,), Ok(inner.events)),
        inner.biome@.biome_id == config.biome_id@,
        inner.biome@.spec_version == config.spec_version@,
        inner.biome@.seed == seed_of(encode_utf8(config.biome_id@), config.seed),
        inner.biome@.observations.len() == 0,
        forall|n: u64| !#[trigger] inner.registry@.contains_key(n),
        forall|id: u32| !#[trigger] inner.calibration@.contains_key(id),
        inner.peer_summaries@.len() == 0,
        forall|id: Seq<char>| !#[trigger] inner.applied_revocation_ids@.contains(id),
        inner.applied_peer_revocations == 0,
        inner.alerts == 0,
        inner.calibration_errors == 0,
        inner.datagrams.accepted == 0,
        inner.datagrams.rejected == 0,
        inner.datagrams.fragments == 0,
{
}

/// **A gateway that does not start says which store did not open**, and why.
pub proof fn law_failed_start_names_the_store<
    O: FnOnce(usize) -> Result<ObservationStore, String>,
    E: FnOnce(usize) -> Result<EventStore, String>,
>(config: GatewayConfig, open_obs: O, open_events: E, error: String)
    requires
        open_gateway_yields(config, open_obs, open_events, Err(error)),
    ensures
        (exists|reason: String| #[trigger]
            call_ensures(open_obs, (4096usize,), Err(reason)) && error@
                == "open observation store: "@ + reason@) || (exists|reason: String| #[trigger]
            call_ensures(open_events, (1024usize,), Err(reason)) && error@ == "open event store: "@
                + reason@),
{
}

} // verus!
