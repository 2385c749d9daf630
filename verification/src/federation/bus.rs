//! The federation exchange that binds keys to biome identities.

use crate::federation::bus_laws::{after_publish, after_publish_event, after_register};
use crate::federation::events::{event_valid, verify_event};
use crate::federation::json::lemma_field_prefix;
use crate::federation::summary::{summary_valid, verify_summary, RegionalSummary, SummaryView};
use crate::model::event::EnvironmentalEvent;
use crate::text::{decimal, decimal_text, lemma_decimal, same_text};
use vstd::hash_map::StringHashMap;
use vstd::hash_set::StringHashSet;
use vstd::prelude::*;
use vstd::string::*;

verus! {

/// Errors raised by [`FederationBus`] registration and publication, and by
/// the handling of wire envelopes.
#[derive(Debug, Clone, PartialEq, Eq)]
pub enum FederationError {
    /// The payload carried no signature or signer key.
    Unsigned,
    /// The signature did not verify over the canonical bytes.
    BadSignature,
    /// The payload's `biome_id` is not a registered biome.
    UnknownBiome(String),
    /// The payload's signer key is not the key registered for its claimed
    /// `biome_id`: a registered key may not publish under another biome's
    /// identity.
    IdentityMismatch {
        /// The biome identity the payload claimed.
        biome_id: String,
    },
    /// Re-registration with a key epoch at or below the current one while
    /// changing the key: rotation requires a strictly higher epoch.
    StaleKeyEpoch {
        /// The biome being registered.
        biome_id: String,
        /// The rejected epoch.
        epoch: u32,
    },
    /// A summary for this `(biome_id, window_start_ns, window_end_ns)` was
    /// already accepted.
    DuplicateSummary,
    /// An event with this `event_id` was already accepted.
    DuplicateEvent,
    /// Bytes did not structurally decode as a signed wire envelope.
    BadEnvelope(String),
}

/// An error, as a value.
pub enum Refusal {
    Unsigned,
    BadSignature,
    UnknownBiome(Seq<char>),
    IdentityMismatch(Seq<char>),
    StaleKeyEpoch(Seq<char>, u32),
    DuplicateSummary,
    DuplicateEvent,
    BadEnvelope(Seq<char>),
}

impl View for FederationError {
    type V = Refusal;

    open spec fn view(&self) -> Refusal {
        match self {
            FederationError::Unsigned => Refusal::Unsigned,
            FederationError::BadSignature => Refusal::BadSignature,
            FederationError::UnknownBiome(id) => Refusal::UnknownBiome(id@),
            FederationError::IdentityMismatch { biome_id } => Refusal::IdentityMismatch(biome_id@),
            FederationError::StaleKeyEpoch { biome_id, epoch } => Refusal::StaleKeyEpoch(
                biome_id@,
                *epoch,
            ),
            FederationError::DuplicateSummary => Refusal::DuplicateSummary,
            FederationError::DuplicateEvent => Refusal::DuplicateEvent,
            FederationError::BadEnvelope(m) => Refusal::BadEnvelope(m@),
        }
    }
}

impl Refusal {
    /// The text for people.
    pub open spec fn message(self) -> Seq<char> {
        match self {
            Refusal::Unsigned => "payload is unsigned"@,
            Refusal::BadSignature => "signature verification failed"@,
            Refusal::UnknownBiome(id) => "not a registered biome: "@ + id,
            Refusal::IdentityMismatch(id) => "signer key is not the registered key for "@ + id,
            Refusal::StaleKeyEpoch(id, epoch) => "stale key epoch "@ + decimal(epoch as nat)
                + " for "@ + id,
            Refusal::DuplicateSummary => "summary for this biome and window already accepted"@,
            Refusal::DuplicateEvent => "event with this event_id already accepted"@,
            Refusal::BadEnvelope(m) => "envelope decode failed: "@ + m,
        }
    }
}

/// A text and what follows it.
fn joined(head: &str, tail: &str) -> (text: String)
    ensures
        text@ == head@ + tail@,
{
    let mut text = head.to_owned();
    text.append(tail);
    text
}

impl FederationError {
    /// The text of the error for people.
    pub fn message(&self) -> (text: String)
        ensures
            text@ == self@.message(),
    {
        match self {
            FederationError::Unsigned => "payload is unsigned".to_owned(),
            FederationError::BadSignature => "signature verification failed".to_owned(),
            FederationError::UnknownBiome(id) => joined("not a registered biome: ", id.as_str()),
            FederationError::IdentityMismatch { biome_id } => joined(
                "signer key is not the registered key for ",
                biome_id.as_str(),
            ),
            FederationError::StaleKeyEpoch { biome_id, epoch } => {
                let mut text = joined("stale key epoch ", decimal_text(*epoch as u64).as_str());
                text.append(" for ");
                text.append(biome_id.as_str());
                text
            },
            FederationError::DuplicateSummary => {
                "summary for this biome and window already accepted".to_owned()
            },
            FederationError::DuplicateEvent => {
                "event with this event_id already accepted".to_owned()
            },
            FederationError::BadEnvelope(m) => joined("envelope decode failed: ", m.as_str()),
        }
    }
}

/// A biome's registered federation identity: its current public key and the
/// epoch it was registered under.
#[derive(Debug, Clone, PartialEq, Eq)]
pub struct BiomeKey {
    /// Hex ed25519 public key bound to the biome id.
    pub pubkey_hex: String,
    /// Rotation epoch; changing the key must strictly increase it.
    pub key_epoch: u32,
}

/// The bus, as values: the registered identities, and what was accepted in
/// order of publication.
#[verifier::ext_equal]
pub struct BusView {
    pub biomes: Map<Seq<char>, (Seq<char>, u32)>,
    pub summaries: Seq<RegionalSummary>,
    pub events: Seq<EnvironmentalEvent>,
}

/// The biome and window of a summary.
pub type SummaryWindow = (Seq<char>, u64, u64);

/// The biome and window of a summary.
pub open spec fn window_of(s: SummaryView) -> SummaryWindow {
    (s.biome_id, s.window_start_ns, s.window_end_ns)
}

/// A summary of this biome and window is in the list.
pub open spec fn has_window(summaries: Seq<RegionalSummary>, window: SummaryWindow) -> bool {
    exists|i: int|
        0 <= i < summaries.len() && window_of((#[trigger] summaries[i])@) == window
}

/// An event of this id is in the list.
pub open spec fn has_event(events: Seq<EnvironmentalEvent>, id: Seq<char>) -> bool {
    exists|i: int| 0 <= i < events.len() && (#[trigger] events[i]).event_id@ == id
}

impl BusView {
    /// An empty bus.
    pub open spec fn empty() -> BusView {
        BusView { biomes: Map::empty(), summaries: Seq::empty(), events: Seq::empty() }
    }

    /// A summary of this biome and window was accepted.
    pub open spec fn accepted_window(self, window: SummaryWindow) -> bool {
        has_window(self.summaries, window)
    }

    /// An event of this id was accepted.
    pub open spec fn accepted_event(self, id: Seq<char>) -> bool {
        has_event(self.events, id)
    }

    /// What is wrong with a signer key for a claimed biome id.
    pub open spec fn identity_fault(self, biome_id: Seq<char>, signer: Seq<char>) -> Option<Refusal> {
        if !self.biomes.contains_key(biome_id) {
            Some(Refusal::UnknownBiome(biome_id))
        } else if self.biomes[biome_id].0 != signer {
            Some(Refusal::IdentityMismatch(biome_id))
        } else {
            None
        }
    }

    /// Why a summary is refused, if it is.
    pub open spec fn summary_refusal(self, s: SummaryView) -> Option<Refusal> {
        if s.signature_hex is None || s.signer_pubkey_hex is None {
            Some(Refusal::Unsigned)
        } else if self.identity_fault(s.biome_id, s.signer_pubkey_hex->0) is Some {
            self.identity_fault(s.biome_id, s.signer_pubkey_hex->0)
        } else if !summary_valid(s) {
            Some(Refusal::BadSignature)
        } else if self.accepted_window(window_of(s)) {
            Some(Refusal::DuplicateSummary)
        } else {
            None
        }
    }

    /// Why an event is refused, if it is.
    pub open spec fn event_refusal(self, event: EnvironmentalEvent) -> Option<Refusal> {
        if event.signature_hex is None || event.signer_pubkey_hex is None {
            Some(Refusal::Unsigned)
        } else if self.identity_fault(event.biome_id@, event.signer_pubkey_hex->0@) is Some {
            self.identity_fault(event.biome_id@, event.signer_pubkey_hex->0@)
        } else if !event_valid(event) {
            Some(Refusal::BadSignature)
        } else if self.accepted_event(event.event_id@) {
            Some(Refusal::DuplicateEvent)
        } else {
            None
        }
    }

    /// Why a registration is refused, if it is.
    pub open spec fn registration_refusal(
        self,
        biome_id: Seq<char>,
        pubkey_hex: Seq<char>,
        key_epoch: u32,
    ) -> Option<Refusal> {
        if self.biomes.contains_key(biome_id) && key_epoch <= self.biomes[biome_id].1
            && pubkey_hex != self.biomes[biome_id].0 {
            Some(Refusal::StaleKeyEpoch(biome_id, key_epoch))
        } else {
            None
        }
    }

    /// The bus after a registration that is not refused: a known key at or
    /// below the current epoch changes nothing.
    pub open spec fn registered(
        self,
        biome_id: Seq<char>,
        pubkey_hex: Seq<char>,
        key_epoch: u32,
    ) -> BusView {
        if self.biomes.contains_key(biome_id) && key_epoch <= self.biomes[biome_id].1 {
            self
        } else {
            BusView { biomes: self.biomes.insert(biome_id, (pubkey_hex, key_epoch)), ..self }
        }
    }
}

/// The key under which a window is remembered.
pub open spec fn window_key(window: SummaryWindow) -> Seq<char> {
    decimal(window.1 as nat) + ":"@ + decimal(window.2 as nat) + ":"@ + window.0
}

/// Windows are remembered apart.
proof fn lemma_window_key(a: SummaryWindow, b: SummaryWindow)
    requires
        window_key(a) == window_key(b),
    ensures
        a == b,
{
    reveal_strlit(":");
    lemma_decimal(a.1 as nat);
    lemma_decimal(b.1 as nat);
    lemma_decimal(a.2 as nat);
    lemma_decimal(b.2 as nat);
    let x = decimal(a.2 as nat) + (":"@ + a.0);
    let y = decimal(b.2 as nat) + (":"@ + b.0);
    assert(window_key(a) =~= decimal(a.1 as nat) + (":"@ + x));
    assert(window_key(b) =~= decimal(b.1 as nat) + (":"@ + y));
    lemma_field_prefix(decimal(a.1 as nat), decimal(b.1 as nat), ":"@, x, y);
    lemma_field_prefix(decimal(a.2 as nat), decimal(b.2 as nat), ":"@, a.0, b.0);
}

fn window_key_text(biome_id: &str, start_ns: u64, end_ns: u64) -> (text: String)
    ensures
        text@ == window_key((biome_id@, start_ns, end_ns)),
{
    let mut text = decimal_text(start_ns);
    text.append(":");
    text.append(decimal_text(end_ns).as_str());
    text.append(":");
    text.append(biome_id);
    text
}

/// In-memory federation exchange: registered biomes publish signed summaries
/// and events. The payload's `biome_id` must be registered and its signer key
/// must be the key registered for that id, and a summary window or event id
/// is accepted at most once.
pub struct FederationBus {
    /// Registered biome identities and their current keys.
    biomes: StringHashMap<BiomeKey>,
    /// Accepted summaries, in publication order.
    summaries: Vec<RegionalSummary>,
    /// Accepted events, in publication order.
    events: Vec<EnvironmentalEvent>,
    /// Replay guard: the keys of all accepted summary windows.
    seen_windows: StringHashSet,
    /// Replay guard: every accepted `event_id`.
    seen_events: StringHashSet,
}

impl View for FederationBus {
    type V = BusView;

    closed spec fn view(&self) -> BusView {
        BusView {
            biomes: self.biomes@.map_values(|k: BiomeKey| (k.pubkey_hex@, k.key_epoch)),
            summaries: self.summaries@,
            events: self.events@,
        }
    }
}

impl Default for FederationBus {
    fn default() -> (bus: FederationBus)
        ensures
            bus.well_formed(),
            bus@ == BusView::empty(),
    {
        FederationBus::new()
    }
}

impl FederationBus {
    /// The replay guards know exactly what was accepted.
    pub closed spec fn well_formed(&self) -> bool {
        &&& forall|w: SummaryWindow|
            self@.accepted_window(w) <==> self.seen_windows@.contains(#[trigger] window_key(w))
        &&& forall|id: Seq<char>|
            self@.accepted_event(id) <==> #[trigger] self.seen_events@.contains(id)
    }

    /// Create an empty bus.
    pub fn new() -> (bus: FederationBus)
        ensures
            bus.well_formed(),
            bus@ == BusView::empty(),
    {
        let bus = FederationBus {
            biomes: StringHashMap::new(),
            summaries: Vec::new(),
            events: Vec::new(),
            seen_windows: StringHashSet::new(),
            seen_events: StringHashSet::new(),
        };
        assert(bus@.biomes =~= Map::empty());
        bus
    }

    /// Register a biome identity with its hex public key at `key_epoch`.
    ///
    /// Registering the same `biome_id` again with a **strictly higher** epoch
    /// replaces the key. Registering the same key again at an epoch that is
    /// no higher changes nothing. A lower or equal epoch with a *different*
    /// key is [`FederationError::StaleKeyEpoch`]: a stolen old registration
    /// cannot roll the identity back.
    pub fn register_biome(&mut self, biome_id: String, pubkey_hex: String, key_epoch: u32) -> (result:
        Result<(), FederationError>)
        requires
            old(self).well_formed(),
        ensures
            final(self).well_formed(),
            match old(self)@.registration_refusal(biome_id@, pubkey_hex@, key_epoch) {
                Some(refusal) => result is Err && result->Err_0@ == refusal && final(self)@ == old(
                    self,
                )@,
                None => result is Ok && final(self)@ == old(self)@.registered(
                    biome_id@,
                    pubkey_hex@,
                    key_epoch,
                ),
            },
            final(self)@ == after_register(old(self)@, biome_id@, pubkey_hex@, key_epoch),
            !old(self)@.biomes.contains_key(biome_id@) ==> result is Ok
                && final(self)@.biomes.contains_key(biome_id@)
                && final(self)@.biomes[biome_id@] == (pubkey_hex@, key_epoch),
    {
        let ghost before = self@;
        match self.biomes.get(biome_id.as_str()) {
            Some(current) => {
                if key_epoch <= current.key_epoch {
                    if !same_text(pubkey_hex.as_str(), current.pubkey_hex.as_str()) {
                        return Err(
                            FederationError::StaleKeyEpoch { biome_id, epoch: key_epoch },
                        );
                    }
                    return Ok(());
                }
            },
            None => {},
        }
        self.biomes.insert(biome_id, BiomeKey { pubkey_hex, key_epoch });
        proof {
            assert(self@.biomes =~= before.biomes.insert(biome_id@, (pubkey_hex@, key_epoch)));
            assert(self@ =~= before.registered(biome_id@, pubkey_hex@, key_epoch));
            assert forall|w: SummaryWindow|
                self@.accepted_window(w) <==> self.seen_windows@.contains(
                    #[trigger] window_key(w),
                ) by {
                assert(self@.accepted_window(w) == before.accepted_window(w));
            }
            assert forall|id: Seq<char>|
                self@.accepted_event(id) <==> #[trigger] self.seen_events@.contains(id) by {
                assert(self@.accepted_event(id) == before.accepted_event(id));
            }
        }
        Ok(())
    }

    /// Look up the registered key for a claimed biome id and hold it against
    /// the payload's signer key.
    fn check_identity(&self, biome_id: &String, signer_pubkey_hex: &str) -> (result: Result<
        (),
        FederationError,
    >)
        ensures
            match self@.identity_fault(biome_id@, signer_pubkey_hex@) {
                Some(refusal) => result is Err && result->Err_0@ == refusal,
                None => result is Ok,
            },
    {
        match self.biomes.get(biome_id.as_str()) {
            Some(registered) => {
                if same_text(registered.pubkey_hex.as_str(), signer_pubkey_hex) {
                    Ok(())
                } else {
                    Err(FederationError::IdentityMismatch { biome_id: biome_id.clone() })
                }
            },
            None => Err(FederationError::UnknownBiome(biome_id.clone())),
        }
    }

    /// Publish a signed regional summary. Checks, in order: signature fields
    /// present; `biome_id` registered; signer key is the key registered for
    /// that id; signature verifies; window never accepted before.
    pub fn publish(&mut self, summary: RegionalSummary) -> (result: Result<(), FederationError>)
        requires
            old(self).well_formed(),
        ensures
            final(self).well_formed(),
            match old(self)@.summary_refusal(summary@) {
                Some(refusal) => result is Err && result->Err_0@ == refusal && final(self)@ == old(
                    self,
                )@,
                None => result is Ok && final(self)@ == (BusView {
                    summaries: old(self)@.summaries.push(summary),
                    ..old(self)@
                }),
            },
            final(self)@ == after_publish(old(self)@, summary),
    {
        let ghost before = self@;
        let ghost guard = self.seen_windows@;
        match (&summary.signature_hex, &summary.signer_pubkey_hex) {
            (Some(_), Some(pk)) => {
                match self.check_identity(&summary.biome_id, pk.as_str()) {
                    Ok(()) => {},
                    Err(error) => {
                        return Err(error);
                    },
                }
            },
            _ => {
                return Err(FederationError::Unsigned);
            },
        }
        if !verify_summary(&summary) {
            return Err(FederationError::BadSignature);
        }
        let key = window_key_text(
            summary.biome_id.as_str(),
            summary.window_start_ns,
            summary.window_end_ns,
        );
        let ghost window = window_of(summary@);
        assert(key@ == window_key(window));
        if self.seen_windows.contains(key.as_str()) {
            return Err(FederationError::DuplicateSummary);
        }
        self.seen_windows.insert(key);
        self.summaries.push(summary);
        proof {
            let after = self@;
            let n = before.summaries.len() as int;
            assert forall|w: SummaryWindow|
                after.accepted_window(w) <==> self.seen_windows@.contains(
                    #[trigger] window_key(w),
                ) by {
                if w == window {
                    assert(window_of(after.summaries[n]@) == w);
                } else {
                    if window_key(w) == window_key(window) {
                        lemma_window_key(w, window);
                    }
                    assert(self.seen_windows@.contains(window_key(w)) == guard.contains(
                        window_key(w),
                    ));
                    if after.accepted_window(w) {
                        let i = choose|i: int|
                            0 <= i < after.summaries.len() && window_of(
                                (#[trigger] after.summaries[i])@,
                            ) == w;
                        assert(before.summaries[i] == after.summaries[i]);
                        assert(before.accepted_window(w));
                    }
                    if before.accepted_window(w) {
                        let i = choose|i: int|
                            0 <= i < before.summaries.len() && window_of(
                                (#[trigger] before.summaries[i])@,
                            ) == w;
                        assert(after.summaries[i] == before.summaries[i]);
                    }
                }
            }
            assert forall|id: Seq<char>|
                after.accepted_event(id) <==> #[trigger] self.seen_events@.contains(id) by {
                assert(after.accepted_event(id) == before.accepted_event(id));
            }
        }
        Ok(())
    }

    /// Publish a signed environmental event with the same identity binding and
    /// signature checks as [`Self::publish`], and dedup by `event_id`.
    pub fn publish_event(&mut self, event: EnvironmentalEvent) -> (result: Result<
        (),
        FederationError,
    >)
        requires
            old(self).well_formed(),
        ensures
            final(self).well_formed(),
            match old(self)@.event_refusal(event) {
                Some(refusal) => result is Err && result->Err_0@ == refusal && final(self)@ == old(
                    self,
                )@,
                None => result is Ok && final(self)@ == (BusView {
                    events: old(self)@.events.push(event),
                    ..old(self)@
                }),
            },
            final(self)@ == after_publish_event(old(self)@, event),
    {
        let ghost before = self@;
        let ghost guard = self.seen_events@;
        match (&event.signature_hex, &event.signer_pubkey_hex) {
            (Some(_), Some(pk)) => {
                match self.check_identity(&event.biome_id, pk.as_str()) {
                    Ok(()) => {},
                    Err(error) => {
                        return Err(error);
                    },
                }
            },
            _ => {
                return Err(FederationError::Unsigned);
            },
        }
        if !verify_event(&event) {
            return Err(FederationError::BadSignature);
        }
        if self.seen_events.contains(event.event_id.as_str()) {
            return Err(FederationError::DuplicateEvent);
        }
        self.seen_events.insert(event.event_id.clone());
        self.events.push(event);
        proof {
            let after = self@;
            let n = before.events.len() as int;
            let own = event.event_id@;
            assert forall|id: Seq<char>|
                after.accepted_event(id) <==> #[trigger] self.seen_events@.contains(id) by {
                if id == own {
                    assert(after.events[n].event_id@ == id);
                } else {
                    assert(self.seen_events@.contains(id) == guard.contains(id));
                    if after.accepted_event(id) {
                        let i = choose|i: int|
                            0 <= i < after.events.len() && (#[trigger] after.events[i]).event_id@
                                == id;
                        assert(before.events[i] == after.events[i]);
                        assert(before.accepted_event(id));
                    }
                    if before.accepted_event(id) {
                        let i = choose|i: int|
                            0 <= i < before.events.len() && (#[trigger] before.events[i]).event_id@
                                == id;
                        assert(after.events[i] == before.events[i]);
                    }
                }
            }
            assert forall|w: SummaryWindow|
                after.accepted_window(w) <==> self.seen_windows@.contains(
                    #[trigger] window_key(w),
                ) by {
                assert(after.accepted_window(w) == before.accepted_window(w));
            }
        }
        Ok(())
    }

    /// Accepted summaries, in publication order.
    pub fn summaries(&self) -> (summaries: &[RegionalSummary])
        ensures
            summaries@ == self@.summaries,
    {
        self.summaries.as_slice()
    }

    /// Accepted events, in publication order.
    pub fn events(&self) -> (events: &[EnvironmentalEvent])
        ensures
            events@ == self@.events,
    {
        self.events.as_slice()
    }
}

} // verus!
