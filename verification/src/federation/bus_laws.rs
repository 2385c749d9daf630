//! What the identity-bound exchange promises over many calls.

use crate::federation::bus::{window_of, BusView, FederationError, Refusal};
use crate::federation::events::event_valid;
use crate::federation::summary::{summary_valid, RegionalSummary, SummaryView};
use crate::model::event::EnvironmentalEvent;
use crate::text::decimal;
use vstd::prelude::*;
use vstd::string::*;

verus! {

/// The bus after a summary was published to it, accepted or not.
pub open spec fn after_publish(bus: BusView, summary: RegionalSummary) -> BusView {
    if bus.summary_refusal(summary@) is None {
        BusView { summaries: bus.summaries.push(summary), ..bus }
    } else {
        bus
    }
}

/// The bus after an event was published to it, accepted or not.
pub open spec fn after_publish_event(
    bus: BusView,
    event: EnvironmentalEvent,
) -> BusView {
    if bus.event_refusal(event) is None {
        BusView { events: bus.events.push(event), ..bus }
    } else {
        bus
    }
}

/// The bus after a registration, refused or not.
pub open spec fn after_register(
    bus: BusView,
    biome_id: Seq<char>,
    pubkey_hex: Seq<char>,
    key_epoch: u32,
) -> BusView {
    if bus.registration_refusal(biome_id, pubkey_hex, key_epoch) is None {
        bus.registered(biome_id, pubkey_hex, key_epoch)
    } else {
        bus
    }
}

/// No two accepted summaries are of the same biome and window.
pub open spec fn distinct_windows(bus: BusView) -> bool {
    forall|i: int, j: int|
        0 <= i < j < bus.summaries.len() ==> window_of((#[trigger] bus.summaries[i])@) != window_of(
            (#[trigger] bus.summaries[j])@,
        )
}

/// No two accepted events have the same id.
pub open spec fn distinct_events(bus: BusView) -> bool {
    forall|i: int, j: int|
        0 <= i < j < bus.events.len() ==> (#[trigger] bus.events[i]).event_id@ != (
        #[trigger] bus.events[j]).event_id@
}

/// **Only the registered key speaks for a biome.** A summary is accepted
/// exactly where it verifies under the key that is registered for the biome
/// it names, and its window is new.
pub proof fn law_accepted_summary_is_genuine(bus: BusView, s: SummaryView)
    ensures
        bus.summary_refusal(s) is None <==> {
            &&& bus.biomes.contains_key(s.biome_id)
            &&& s.signer_pubkey_hex == Some(bus.biomes[s.biome_id].0)
            &&& summary_valid(s)
            &&& !bus.accepted_window(window_of(s))
        },
{
}

/// The same of events.
pub proof fn law_accepted_event_is_genuine(
    bus: BusView,
    event: EnvironmentalEvent,
)
    ensures
        bus.event_refusal(event) is None <==> {
            &&& bus.biomes.contains_key(event.biome_id@)
            &&& event.signer_pubkey_hex is Some
            &&& event.signer_pubkey_hex->0@ == bus.biomes[event.biome_id@].0
            &&& event_valid(event)
            &&& !bus.accepted_event(event.event_id@)
        },
{
}

/// **A window is accepted at most once.** Once a summary is among those
/// accepted, no summary of the same biome and window is accepted; one that
/// passes the other checks is refused as a duplicate.
pub proof fn law_window_is_accepted_once(bus: BusView, i: int, s: SummaryView)
    requires
        0 <= i < bus.summaries.len(),
        window_of(bus.summaries[i]@) == window_of(s),
    ensures
        bus.summary_refusal(s) is Some,
        s.signature_hex is Some && s.signer_pubkey_hex is Some && bus.identity_fault(
            s.biome_id,
            s.signer_pubkey_hex->0,
        ) is None && summary_valid(s) ==> bus.summary_refusal(s) == Some(
            Refusal::DuplicateSummary,
        ),
{
    assert(bus.accepted_window(window_of(s)));
}

/// **An event is accepted at most once**, by its id.
pub proof fn law_event_is_accepted_once(
    bus: BusView,
    i: int,
    event: EnvironmentalEvent,
)
    requires
        0 <= i < bus.events.len(),
        bus.events[i].event_id@ == event.event_id@,
    ensures
        bus.event_refusal(event) is Some,
        event.signature_hex is Some && event.signer_pubkey_hex is Some && bus.identity_fault(
            event.biome_id@,
            event.signer_pubkey_hex->0@,
        ) is None && event_valid(event) ==> bus.event_refusal(event) == Some(
            Refusal::DuplicateEvent,
        ),
{
    assert(bus.accepted_event(event.event_id@));
}

/// What was accepted stays, in its order, and stays free of repetition,
/// whatever is published.
pub proof fn law_publish_keeps_accepted(bus: BusView, summary: RegionalSummary)
    ensures
        bus.summaries.is_prefix_of(after_publish(bus, summary).summaries),
        after_publish(bus, summary).events == bus.events,
        after_publish(bus, summary).biomes == bus.biomes,
        distinct_windows(bus) ==> distinct_windows(after_publish(bus, summary)),
{
    let after = after_publish(bus, summary);
    assert(bus.summaries =~= after.summaries.take(bus.summaries.len() as int));
    if distinct_windows(bus) && bus.summary_refusal(summary@) is None {
        assert forall|i: int, j: int| 0 <= i < j < after.summaries.len() implies window_of(
            (#[trigger] after.summaries[i])@,
        ) != window_of((#[trigger] after.summaries[j])@) by {
            assert(after.summaries[i] == bus.summaries[i]);
            if j < bus.summaries.len() {
                assert(after.summaries[j] == bus.summaries[j]);
            }
        }
    }
}

/// The same of events.
pub proof fn law_publish_event_keeps_accepted(
    bus: BusView,
    event: EnvironmentalEvent,
)
    ensures
        bus.events.is_prefix_of(after_publish_event(bus, event).events),
        after_publish_event(bus, event).summaries == bus.summaries,
        after_publish_event(bus, event).biomes == bus.biomes,
        distinct_events(bus) ==> distinct_events(after_publish_event(bus, event)),
{
    let after = after_publish_event(bus, event);
    assert(bus.events =~= after.events.take(bus.events.len() as int));
    if distinct_events(bus) && bus.event_refusal(event) is None {
        assert forall|i: int, j: int| 0 <= i < j < after.events.len() implies (
        #[trigger] after.events[i]).event_id@ != (#[trigger] after.events[j]).event_id@ by {
            assert(after.events[i] == bus.events[i]);
            if j < bus.events.len() {
                assert(after.events[j] == bus.events[j]);
            }
        }
    }
}

/// **Rotation locks the old key out.** After a registration at a strictly
/// higher epoch the new key is the biome's, and what another key signed for
/// the biome is an identity mismatch.
pub proof fn law_rotation_replaces_key(
    bus: BusView,
    biome_id: Seq<char>,
    pubkey_hex: Seq<char>,
    key_epoch: u32,
    s: SummaryView,
)
    requires
        bus.biomes.contains_key(biome_id),
        key_epoch > bus.biomes[biome_id].1,
        s.biome_id == biome_id,
        s.signature_hex is Some,
        s.signer_pubkey_hex is Some,
        s.signer_pubkey_hex->0 != pubkey_hex,
    ensures
        bus.registration_refusal(biome_id, pubkey_hex, key_epoch) is None,
        after_register(bus, biome_id, pubkey_hex, key_epoch).biomes[biome_id] == (
            pubkey_hex,
            key_epoch,
        ),
        after_register(bus, biome_id, pubkey_hex, key_epoch).summary_refusal(s) == Some(
            Refusal::IdentityMismatch(biome_id),
        ),
{
}

/// **An identity cannot be rolled back.** A registration at an epoch that is
/// no higher leaves every identity as it is; with a different key it is
/// refused, with the same key it is not.
pub proof fn law_identity_is_not_rolled_back(
    bus: BusView,
    biome_id: Seq<char>,
    pubkey_hex: Seq<char>,
    key_epoch: u32,
)
    requires
        bus.biomes.contains_key(biome_id),
        key_epoch <= bus.biomes[biome_id].1,
    ensures
        after_register(bus, biome_id, pubkey_hex, key_epoch) == bus,
        bus.registration_refusal(biome_id, pubkey_hex, key_epoch) == (if pubkey_hex
            == bus.biomes[biome_id].0 {
            None
        } else {
            Some(Refusal::StaleKeyEpoch(biome_id, key_epoch))
        }),
{
}

/// Epochs never fall and identities never vanish; no registration touches
/// another biome or what was accepted.
pub proof fn law_register_touches_one_identity(
    bus: BusView,
    biome_id: Seq<char>,
    pubkey_hex: Seq<char>,
    key_epoch: u32,
    other: Seq<char>,
)
    requires
        bus.biomes.contains_key(other),
    ensures
        ({
            let after = after_register(bus, biome_id, pubkey_hex, key_epoch);
            &&& after.biomes.contains_key(other)
            &&& after.biomes[other].1 >= bus.biomes[other].1
            &&& other != biome_id ==> after.biomes[other] == bus.biomes[other]
            &&& after.summaries == bus.summaries
            &&& after.events == bus.events
        }),
{
}

// ---------------------------------------------------------------------------
// On the fields
// ---------------------------------------------------------------------------

/// **A first registration binds the key and the epoch that were given.** For an
/// id that is not registered every registration is taken, and from then on the
/// id stands for exactly that key at exactly that epoch.
pub proof fn law_first_registration_binds(
    bus: BusView,
    biome_id: Seq<char>,
    pubkey_hex: Seq<char>,
    key_epoch: u32,
)
    requires
        !bus.biomes.contains_key(biome_id),
    ensures
        bus.registration_refusal(biome_id, pubkey_hex, key_epoch) is None,
        bus.registered(biome_id, pubkey_hex, key_epoch).biomes.contains_key(biome_id),
        bus.registered(biome_id, pubkey_hex, key_epoch).biomes[biome_id] == (pubkey_hex, key_epoch),
{
}

/// **The first registration cannot be rolled back.** After it, another key at
/// an epoch that is no higher is refused as stale, with the id and that epoch,
/// and changes nothing; another key at a higher epoch takes its place.
pub proof fn law_second_registration_needs_a_higher_epoch(
    bus: BusView,
    biome_id: Seq<char>,
    first_key: Seq<char>,
    first_epoch: u32,
    second_key: Seq<char>,
    second_epoch: u32,
)
    requires
        !bus.biomes.contains_key(biome_id),
        first_key != second_key,
    ensures
        ({
            let once = after_register(bus, biome_id, first_key, first_epoch);
            let twice = after_register(once, biome_id, second_key, second_epoch);
            &&& second_epoch <= first_epoch ==> {
                &&& once.registration_refusal(biome_id, second_key, second_epoch) == Some(
                    Refusal::StaleKeyEpoch(biome_id, second_epoch),
                )
                &&& twice.biomes.contains_key(biome_id)
                &&& twice.biomes[biome_id] == (first_key, first_epoch)
            }
            &&& second_epoch > first_epoch ==> {
                &&& once.registration_refusal(biome_id, second_key, second_epoch) is None
                &&& twice.biomes.contains_key(biome_id)
                &&& twice.biomes[biome_id] == (second_key, second_epoch)
            }
        }),
{
}

/// **What a registration does**, whatever was registered before. It is refused
/// exactly where the id stands for another key at an epoch that is no lower.
/// A higher epoch, or an id that is new, binds what was given; the same key at
/// an epoch that is no higher changes nothing. No other id and nothing that was
/// accepted is touched.
pub proof fn law_registration_on_fields(
    bus: BusView,
    biome_id: Seq<char>,
    pubkey_hex: Seq<char>,
    key_epoch: u32,
    other: Seq<char>,
)
    ensures
        bus.registration_refusal(biome_id, pubkey_hex, key_epoch) is Some
            <==> bus.biomes.contains_key(biome_id) && bus.biomes[biome_id].0 != pubkey_hex
            && key_epoch <= bus.biomes[biome_id].1,
        bus.registration_refusal(biome_id, pubkey_hex, key_epoch) is Some
            ==> bus.registration_refusal(biome_id, pubkey_hex, key_epoch)->0
            == Refusal::StaleKeyEpoch(biome_id, key_epoch),
        ({
            let after = after_register(bus, biome_id, pubkey_hex, key_epoch);
            &&& after.biomes.contains_key(biome_id)
            &&& !bus.biomes.contains_key(biome_id) || key_epoch > bus.biomes[biome_id].1
                ==> after.biomes[biome_id] == (pubkey_hex, key_epoch)
            &&& bus.biomes.contains_key(biome_id) && key_epoch <= bus.biomes[biome_id].1
                ==> after.biomes[biome_id] == bus.biomes[biome_id]
            &&& other != biome_id ==> {
                &&& after.biomes.contains_key(other) == bus.biomes.contains_key(other)
                &&& bus.biomes.contains_key(other) ==> after.biomes[other] == bus.biomes[other]
            }
            &&& after.summaries == bus.summaries
            &&& after.events == bus.events
        }),
{
}

/// **When a summary is accepted**: it carries a signature and the key that is
/// registered for the biome it names, verifies, and no summary of the same
/// biome, start and end was accepted; nothing else has a say. Otherwise the
/// first of these that fails is the refusal, in the order: no signature, no
/// such biome, another key, does not verify, was there.
pub proof fn law_summary_is_accepted_where(bus: BusView, s: SummaryView)
    ensures
        ({
            let signed = s.signature_hex is Some && s.signer_pubkey_hex is Some;
            let known = bus.biomes.contains_key(s.biome_id);
            let own = known && s.signer_pubkey_hex == Some(bus.biomes[s.biome_id].0);
            let there = exists|i: int|
                {
                    &&& 0 <= i < bus.summaries.len()
                    &&& (#[trigger] bus.summaries[i]).biome_id@ == s.biome_id
                    &&& bus.summaries[i].window_start_ns == s.window_start_ns
                    &&& bus.summaries[i].window_end_ns == s.window_end_ns
                };
            bus.summary_refusal(s) == if !signed {
                Some(Refusal::Unsigned)
            } else if !known {
                Some(Refusal::UnknownBiome(s.biome_id))
            } else if !own {
                Some(Refusal::IdentityMismatch(s.biome_id))
            } else if !summary_valid(s) {
                Some(Refusal::BadSignature)
            } else if there {
                Some(Refusal::DuplicateSummary)
            } else {
                None
            }
        }),
{
    let window = window_of(s);
    if bus.accepted_window(window) {
        let i = choose|i: int|
            0 <= i < bus.summaries.len() && window_of((#[trigger] bus.summaries[i])@) == window;
        assert(bus.summaries[i].biome_id@ == s.biome_id);
    }
    if exists|i: int|
        {
            &&& 0 <= i < bus.summaries.len()
            &&& (#[trigger] bus.summaries[i]).biome_id@ == s.biome_id
            &&& bus.summaries[i].window_start_ns == s.window_start_ns
            &&& bus.summaries[i].window_end_ns == s.window_end_ns
        } {
        let i = choose|i: int|
            {
                &&& 0 <= i < bus.summaries.len()
                &&& (#[trigger] bus.summaries[i]).biome_id@ == s.biome_id
                &&& bus.summaries[i].window_start_ns == s.window_start_ns
                &&& bus.summaries[i].window_end_ns == s.window_end_ns
            };
        assert(window_of(bus.summaries[i]@) == window);
    }
}

/// **When an event is accepted**: it carries a signature and the key that is
/// registered for the biome it names, verifies, and no event of its id was
/// accepted; nothing else has a say. Otherwise the first of these that fails
/// is the refusal, in the order: no signature, no such biome, another key,
/// does not verify, was there.
pub proof fn law_event_is_accepted_where(bus: BusView, event: EnvironmentalEvent)
    ensures
        ({
            let signed = event.signature_hex is Some && event.signer_pubkey_hex is Some;
            let known = bus.biomes.contains_key(event.biome_id@);
            let own = known && event.signer_pubkey_hex->0@ == bus.biomes[event.biome_id@].0;
            let there = exists|i: int|
                0 <= i < bus.events.len() && (#[trigger] bus.events[i]).event_id@
                    == event.event_id@;
            bus.event_refusal(event) == if !signed {
                Some(Refusal::Unsigned)
            } else if !known {
                Some(Refusal::UnknownBiome(event.biome_id@))
            } else if !own {
                Some(Refusal::IdentityMismatch(event.biome_id@))
            } else if !event_valid(event) {
                Some(Refusal::BadSignature)
            } else if there {
                Some(Refusal::DuplicateEvent)
            } else {
                None
            }
        }),
{
}

/// **What publishing does**: what is accepted stands behind all that was, as it
/// came; what is refused leaves no trace; and no identity is touched.
pub proof fn law_publishing_appends(
    bus: BusView,
    summary: RegionalSummary,
    event: EnvironmentalEvent,
)
    ensures
        ({
            let after = after_publish(bus, summary);
            &&& bus.summary_refusal(summary@) is None ==> after.summaries == bus.summaries.push(
                summary,
            )
            &&& bus.summary_refusal(summary@) is Some ==> after.summaries == bus.summaries
            &&& after.events == bus.events
            &&& after.biomes == bus.biomes
        }),
        ({
            let after = after_publish_event(bus, event);
            &&& bus.event_refusal(event) is None ==> after.events == bus.events.push(event)
            &&& bus.event_refusal(event) is Some ==> after.events == bus.events
            &&& after.summaries == bus.summaries
            &&& after.biomes == bus.biomes
        }),
{
}

/// **An error is seen as its fields are.**
pub proof fn law_errors_are_seen_by_their_fields(text: String, epoch: u32)
    ensures
        FederationError::Unsigned@ == Refusal::Unsigned,
        FederationError::BadSignature@ == Refusal::BadSignature,
        FederationError::UnknownBiome(text)@ == Refusal::UnknownBiome(text@),
        (FederationError::IdentityMismatch { biome_id: text })@ == Refusal::IdentityMismatch(text@),
        (FederationError::StaleKeyEpoch { biome_id: text, epoch })@ == Refusal::StaleKeyEpoch(
            text@,
            epoch,
        ),
        FederationError::DuplicateSummary@ == Refusal::DuplicateSummary,
        FederationError::DuplicateEvent@ == Refusal::DuplicateEvent,
        FederationError::BadEnvelope(text)@ == Refusal::BadEnvelope(text@),
{
}

/// **What a refusal says**: which check failed, with the id and the epoch where
/// the check is about them.
pub proof fn law_refusals_say_what_failed(id: Seq<char>, epoch: u32)
    ensures
        Refusal::Unsigned.message() == "payload is unsigned"@,
        Refusal::BadSignature.message() == "signature verification failed"@,
        Refusal::UnknownBiome(id).message() == "not a registered biome: "@ + id,
        Refusal::IdentityMismatch(id).message() == "signer key is not the registered key for "@
            + id,
        Refusal::StaleKeyEpoch(id, epoch).message() == "stale key epoch "@ + decimal(epoch as nat)
            + " for "@ + id,
        Refusal::DuplicateSummary.message()
            == "summary for this biome and window already accepted"@,
        Refusal::DuplicateEvent.message() == "event with this event_id already accepted"@,
        Refusal::BadEnvelope(id).message() == "envelope decode failed: "@ + id,
{
}

} // verus!
