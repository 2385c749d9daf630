//! The plain federation exchange, which knows registered keys only.

use crate::federation::events::{event_valid, verify_event};
use crate::federation::summary::{summary_valid, verify_summary, RegionalSummary, SummaryView};
use crate::model::event::EnvironmentalEvent;
use vstd::hash_set::StringHashSet;
use vstd::prelude::*;
use vstd::string::*;

verus! {

/// Errors raised by [`FederationBus`] publication.
#[derive(Debug, Clone, PartialEq, Eq)]
pub enum FederationError {
    /// The payload carried no signature or signer key.
    Unsigned,
    /// The signature did not verify over the canonical bytes.
    BadSignature,
    /// The signer public key is not a registered biome (hex key attached).
    UnknownBiome(String),
}

/// An error, as a value.
pub enum KeyRefusal {
    Unsigned,
    BadSignature,
    UnknownBiome(Seq<char>),
}

impl View for FederationError {
    type V = KeyRefusal;

    open spec fn view(&self) -> KeyRefusal {
        match self {
            FederationError::Unsigned => KeyRefusal::Unsigned,
            FederationError::BadSignature => KeyRefusal::BadSignature,
            FederationError::UnknownBiome(pk) => KeyRefusal::UnknownBiome(pk@),
        }
    }
}

impl KeyRefusal {
    /// The text for people.
    pub open spec fn message(self) -> Seq<char> {
        match self {
            KeyRefusal::Unsigned => "payload is unsigned"@,
            KeyRefusal::BadSignature => "signature verification failed"@,
            KeyRefusal::UnknownBiome(pk) => "signer is not a registered biome: "@ + pk,
        }
    }
}

impl FederationError {
    /// The text of the error for people.
    pub fn message(&self) -> (text: String)
        ensures
            text@ == self@.message(),
    {
        match self {
            FederationError::Unsigned => "payload is unsigned".to_owned(),
            FederationError::BadSignature => "signature verification failed".to_owned(),
            FederationError::UnknownBiome(pk) => {
                let mut text = "signer is not a registered biome: ".to_owned();
                text.append(pk.as_str());
                text
            },
        }
    }
}

/// The bus, as values: the registered keys, and what was accepted in order of
/// publication.
#[verifier::ext_equal]
pub struct KeyBusView {
    pub biomes: Set<Seq<char>>,
    pub summaries: Seq<RegionalSummary>,
    pub events: Seq<EnvironmentalEvent>,
}

impl KeyBusView {
    /// Why a summary is refused, if it is.
    pub open spec fn summary_refusal(self, s: SummaryView) -> Option<KeyRefusal> {
        if s.signature_hex is None || s.signer_pubkey_hex is None {
            Some(KeyRefusal::Unsigned)
        } else if !self.biomes.contains(s.signer_pubkey_hex->0) {
            Some(KeyRefusal::UnknownBiome(s.signer_pubkey_hex->0))
        } else if !summary_valid(s) {
            Some(KeyRefusal::BadSignature)
        } else {
            None
        }
    }

    /// The bus with one more registered key.
    pub open spec fn registered(self, pubkey_hex: Seq<char>) -> KeyBusView {
        KeyBusView { biomes: self.biomes.insert(pubkey_hex), ..self }
    }

    /// The bus after a summary was published to it, accepted or not.
    pub open spec fn after_publish(self, summary: RegionalSummary) -> KeyBusView {
        if self.summary_refusal(summary@) is None {
            KeyBusView { summaries: self.summaries.push(summary), ..self }
        } else {
            self
        }
    }

    /// The bus after an event was published to it, accepted or not.
    pub open spec fn after_publish_event(self, event: EnvironmentalEvent) -> KeyBusView {
        if self.event_refusal(event) is None {
            KeyBusView { events: self.events.push(event), ..self }
        } else {
            self
        }
    }

    /// Why an event is refused, if it is.
    pub open spec fn event_refusal(self, event: EnvironmentalEvent) -> Option<KeyRefusal> {
        if event.signature_hex is None || event.signer_pubkey_hex is None {
            Some(KeyRefusal::Unsigned)
        } else if !self.biomes.contains(event.signer_pubkey_hex->0@) {
            Some(KeyRefusal::UnknownBiome(event.signer_pubkey_hex->0@))
        } else if !event_valid(event) {
            Some(KeyRefusal::BadSignature)
        } else {
            None
        }
    }
}

/// In-memory federation exchange: registered biomes publish signed summaries
/// and events; everything unsigned, unverifiable, or from an unregistered key
/// is rejected.
pub struct FederationBus {
    /// Registered biome public keys (hex).
    biomes: StringHashSet,
    /// Accepted summaries, in publication order.
    summaries: Vec<RegionalSummary>,
    /// Accepted events, in publication order.
    events: Vec<EnvironmentalEvent>,
}

impl View for FederationBus {
    type V = KeyBusView;

    closed spec fn view(&self) -> KeyBusView {
        KeyBusView {
            biomes: self.biomes@,
            summaries: self.summaries@,
            events: self.events@,
        }
    }
}

impl Default for FederationBus {
    fn default() -> (bus: FederationBus)
        ensures
            bus@ == (KeyBusView {
                biomes: Set::empty(),
                summaries: Seq::empty(),
                events: Seq::empty(),
            }),
    {
        FederationBus::new()
    }
}

impl FederationBus {
    /// Create an empty bus.
    pub fn new() -> (bus: FederationBus)
        ensures
            bus@ == (KeyBusView {
                biomes: Set::empty(),
                summaries: Seq::empty(),
                events: Seq::empty(),
            }),
    {
        FederationBus { biomes: StringHashSet::new(), summaries: Vec::new(), events: Vec::new() }
    }

    /// Register a biome by its hex public key. Only registered biomes may
    /// publish.
    pub fn register_biome(&mut self, pubkey_hex: String)
        ensures
            final(self)@ == (KeyBusView {
                biomes: old(self)@.biomes.insert(pubkey_hex@),
                ..old(self)@
            }),
            final(self)@ == old(self)@.registered(pubkey_hex@),
    {
        self.biomes.insert(pubkey_hex);
    }

    /// Publish a signed regional summary. Rejects unsigned payloads,
    /// unregistered signers, and anything whose signature fails to verify.
    pub fn publish(&mut self, summary: RegionalSummary) -> (result: Result<(), FederationError>)
        ensures
            match old(self)@.summary_refusal(summary@) {
                Some(refusal) => result is Err && result->Err_0@ == refusal && final(self)@ == old(
                    self,
                )@,
                None => result is Ok && final(self)@ == (KeyBusView {
                    summaries: old(self)@.summaries.push(summary),
                    ..old(self)@
                }),
            },
            final(self)@ == old(self)@.after_publish(summary),
    {
        match (&summary.signature_hex, &summary.signer_pubkey_hex) {
            (Some(_), Some(pk)) => {
                if !self.biomes.contains(pk.as_str()) {
                    return Err(FederationError::UnknownBiome(pk.clone()));
                }
            },
            _ => {
                return Err(FederationError::Unsigned);
            },
        }
        if !verify_summary(&summary) {
            return Err(FederationError::BadSignature);
        }
        self.summaries.push(summary);
        Ok(())
    }

    /// Publish a signed environmental event with the same checks.
    pub fn publish_event(&mut self, event: EnvironmentalEvent) -> (result: Result<
        (),
        FederationError,
    >)
        ensures
            match old(self)@.event_refusal(event) {
                Some(refusal) => result is Err && result->Err_0@ == refusal && final(self)@ == old(
                    self,
                )@,
                None => result is Ok && final(self)@ == (KeyBusView {
                    events: old(self)@.events.push(event),
                    ..old(self)@
                }),
            },
            final(self)@ == old(self)@.after_publish_event(event),
    {
        match (&event.signature_hex, &event.signer_pubkey_hex) {
            (Some(_), Some(pk)) => {
                if !self.biomes.contains(pk.as_str()) {
                    return Err(FederationError::UnknownBiome(pk.clone()));
                }
            },
            _ => {
                return Err(FederationError::Unsigned);
            },
        }
        if !verify_event(&event) {
            return Err(FederationError::BadSignature);
        }
        self.events.push(event);
        Ok(())
    }

    /// Accepted summaries, in publication order.
    pub fn summaries(&self) -> (summaries: &[RegionalSummary])
        ensures
            summaries@ == self@.summaries,
    {
        self.summaries.as_slice()
    }

    /// Accepted events, in publication order.
    pub fn events(&self) -> (events: &[EnvironmentalEvent])
        ensures
            events@ == self@.events,
    {
        self.events.as_slice()
    }
}

/// **Only registered keys publish.** A summary that is accepted is signed by
/// a registered key, and an event likewise.
pub proof fn law_only_registered_keys_publish(
    bus: KeyBusView,
    s: SummaryView,
    event: EnvironmentalEvent,
)
    ensures
        bus.summary_refusal(s) is None ==> s.signer_pubkey_hex is Some && bus.biomes.contains(
            s.signer_pubkey_hex->0,
        ) && summary_valid(s),
        bus.event_refusal(event) is None ==> event.signer_pubkey_hex is Some
            && bus.biomes.contains(event.signer_pubkey_hex->0@) && event_valid(event),
{
}

/// **When something is accepted**: it carries a signature and a key that is
/// registered, and verifies; nothing else has a say. Otherwise the first of
/// these that fails is the refusal, and an unknown key is named.
pub proof fn law_accepted_where(bus: KeyBusView, s: SummaryView, event: EnvironmentalEvent)
    ensures
        bus.summary_refusal(s) == if s.signature_hex is None || s.signer_pubkey_hex is None {
            Some(KeyRefusal::Unsigned)
        } else if !bus.biomes.contains(s.signer_pubkey_hex->0) {
            Some(KeyRefusal::UnknownBiome(s.signer_pubkey_hex->0))
        } else if !summary_valid(s) {
            Some(KeyRefusal::BadSignature)
        } else {
            None
        },
        bus.event_refusal(event) == if event.signature_hex is None || event.signer_pubkey_hex
            is None {
            Some(KeyRefusal::Unsigned)
        } else if !bus.biomes.contains(event.signer_pubkey_hex->0@) {
            Some(KeyRefusal::UnknownBiome(event.signer_pubkey_hex->0@))
        } else if !event_valid(event) {
            Some(KeyRefusal::BadSignature)
        } else {
            None
        },
        bus.summary_refusal(s) is None <==> s.signer_pubkey_hex is Some && bus.biomes.contains(
            s.signer_pubkey_hex->0,
        ) && summary_valid(s),
        bus.event_refusal(event) is None <==> event.signer_pubkey_hex is Some
            && bus.biomes.contains(event.signer_pubkey_hex->0@) && event_valid(event),
{
}

/// **What registering and publishing do.** One key more is registered and all
/// others as before; what is accepted stands behind all that was, as it came;
/// what is refused leaves no trace.
pub proof fn law_key_bus_appends(
    bus: KeyBusView,
    key: Seq<char>,
    other: Seq<char>,
    summary: RegionalSummary,
    event: EnvironmentalEvent,
)
    ensures
        bus.registered(key).biomes.contains(other) <==> bus.biomes.contains(other) || other == key,
        bus.registered(key).summaries == bus.summaries,
        bus.registered(key).events == bus.events,
        ({
            let after = bus.after_publish(summary);
            &&& bus.summary_refusal(summary@) is None ==> after.summaries == bus.summaries.push(
                summary,
            )
            &&& bus.summary_refusal(summary@) is Some ==> after.summaries == bus.summaries
            &&& after.events == bus.events
            &&& after.biomes == bus.biomes
        }),
        ({
            let after = bus.after_publish_event(event);
            &&& bus.event_refusal(event) is None ==> after.events == bus.events.push(event)
            &&& bus.event_refusal(event) is Some ==> after.events == bus.events
            &&& after.summaries == bus.summaries
            &&& after.biomes == bus.biomes
        }),
{
}

/// **An error is seen as its fields are.**
pub proof fn law_key_errors_are_seen_by_their_fields(text: String)
    ensures
        FederationError::Unsigned@ == KeyRefusal::Unsigned,
        FederationError::BadSignature@ == KeyRefusal::BadSignature,
        FederationError::UnknownBiome(text)@ == KeyRefusal::UnknownBiome(text@),
{
}

/// **What a refusal says**: which check failed, with the key where none such is
/// registered.
pub proof fn law_key_refusals_say_what_failed(key: Seq<char>)
    ensures
        KeyRefusal::Unsigned.message() == "payload is unsigned"@,
        KeyRefusal::BadSignature.message() == "signature verification failed"@,
        KeyRefusal::UnknownBiome(key).message() == "signer is not a registered biome: "@ + key,
{
}

} // verus!
