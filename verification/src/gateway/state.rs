//! Shared gateway state.

use crate::calibration::store::{CalibrationRecord, CalibrationStore};
use crate::federation::summary::{Biome, BiomeView, RegionalSummary};
use crate::gateway::seed::{biome_seed, seed_of};
use crate::store::events::EventStore;
use crate::store::observations::ObservationStore;
use std::collections::BTreeMap;
use vstd::hash_set::StringHashSet;
use vstd::prelude::*;
use vstd::string::*;
use vstd::utf8::encode_utf8;

verus! {

/// Max records per observation segment file.
pub const OBS_SEGMENT_MAX_RECORDS: usize = 4096;

/// Max records per event segment file.
pub const EVT_SEGMENT_MAX_RECORDS: usize = 1024;

/// Datagram-level counters for the UDP front door, one bump per received
/// datagram.
#[derive(Debug, Clone, Copy, PartialEq, Eq, Structural)]
pub struct DatagramStats {
    /// Datagrams that led to a fully accepted sample.
    pub accepted: u64,
    /// Datagrams rejected at any stage.
    pub rejected: u64,
    /// Fragment datagrams absorbed while awaiting the rest of their message.
    pub fragments: u64,
}

impl Default for DatagramStats {
    fn default() -> (stats: DatagramStats)
        ensures
            stats == (DatagramStats { accepted: 0, rejected: 0, fragments: 0 }),
    {
        DatagramStats { accepted: 0, rejected: 0, fragments: 0 }
    }
}

/// A verified regional summary fetched from a federation peer.
#[derive(Debug, Clone, PartialEq, Eq)]
pub struct PeerSummary {
    /// Peer base URL the summary was fetched from.
    pub peer: String,
    /// The verified signed summary.
    pub summary: RegionalSummary,
    /// When this gateway fetched it (ns since Unix epoch).
    pub fetched_ns: u64,
}

/// What the gateway's identity is made of.
#[derive(Debug, Clone, PartialEq, Eq)]
pub struct GatewayConfig {
    /// Wire spec version.
    pub spec_version: String,
    /// Biome identity.
    pub biome_id: String,
    /// Number that the signing key derives from, with the id.
    pub seed: u64,
}

/// The registered devices, and which of them are revoked.
pub struct NodeRegistry {
    revoked: BTreeMap<u64, bool>,
}

impl View for NodeRegistry {
    type V = Map<u64, bool>;

    /// Each registered node, and whether it is revoked.
    closed spec fn view(&self) -> Map<u64, bool> {
        self.revoked@
    }
}

/// The devices with one more, in good standing.
pub open spec fn with_device(devices: Map<u64, bool>, node_id: u64) -> Map<u64, bool> {
    devices.insert(node_id, false)
}

/// The devices with one of them revoked, where it is there.
pub open spec fn with_revoked(devices: Map<u64, bool>, node_id: u64) -> Map<u64, bool> {
    if devices.contains_key(node_id) {
        devices.insert(node_id, true)
    } else {
        devices
    }
}

impl NodeRegistry {
    /// A registry without devices.
    pub fn new() -> (registry: NodeRegistry)
        ensures
            registry@ == Map::<u64, bool>::empty(),
    {
        NodeRegistry { revoked: BTreeMap::new() }
    }

    /// Register a device, in good standing.
    pub fn register(&mut self, node_id: u64)
        ensures
            final(self)@ == old(self)@.insert(node_id, false),
            final(self)@ == with_device(old(self)@, node_id),
    {
        self.revoked.insert(node_id, false);
    }

    /// Whether a device is registered.
    pub fn is_registered(&self, node_id: u64) -> (is: bool)
        ensures
            is == self@.contains_key(node_id),
    {
        self.revoked.contains_key(&node_id)
    }

    /// Whether a device is registered and revoked.
    pub fn is_revoked(&self, node_id: u64) -> (is: bool)
        ensures
            is == (self@.contains_key(node_id) && self@[node_id]),
    {
        match self.revoked.get(&node_id) {
            Some(revoked) => *revoked,
            None => false,
        }
    }

    /// Revoke a registered device; any other is left alone.
    pub fn revoke(&mut self, node_id: u64)
        ensures
            final(self)@ == (if old(self)@.contains_key(node_id) {
                old(self)@.insert(node_id, true)
            } else {
                old(self)@
            }),
            final(self)@ == with_revoked(old(self)@, node_id),
    {
        if self.revoked.contains_key(&node_id) {
            self.revoked.insert(node_id, true);
        }
    }
}

/// Everything mutable in the gateway, to be guarded by one lock.
pub struct Inner {
    /// Registered devices and their standing.
    pub registry: NodeRegistry,
    /// Calibration records with anchor-rooted lineage.
    pub calibration: CalibrationStore,
    /// The sovereign biome aggregate and signing identity.
    pub biome: Biome,
    /// Durable observation log.
    pub obs: ObservationStore,
    /// Durable event log.
    pub events: EventStore,
    /// Latest verified summary per federation peer.
    pub peer_summaries: Vec<PeerSummary>,
    /// `event_id`s of peer revocation events already applied locally.
    pub applied_revocation_ids: StringHashSet,
    /// How many verified peer `DeviceRevoked` events were applied.
    pub applied_peer_revocations: u64,
    /// Local alert events raised.
    pub alerts: u64,
    /// Calibration application errors.
    pub calibration_errors: u64,
    /// Datagram-level UDP counters.
    pub datagrams: DatagramStats,
}

impl Inner {
    /// A gateway that has just been started: its stores as they were opened,
    /// the identity of its configuration, and nothing else yet.
    pub open spec fn fresh(
        self,
        config: GatewayConfig,
        obs: ObservationStore,
        events: EventStore,
    ) -> bool {
        &&& self.registry@ == Map::<u64, bool>::empty()
        &&& self.calibration@ == Map::<u32, CalibrationRecord>::empty()
        &&& self.biome@ == (BiomeView {
            spec_version: config.spec_version@,
            biome_id: config.biome_id@,
            seed: seed_of(encode_utf8(config.biome_id@), config.seed),
            observations: Seq::empty(),
        })
        &&& self.obs == obs
        &&& self.events == events
        &&& self.peer_summaries@.len() == 0
        &&& self.applied_revocation_ids@ == Set::<Seq<char>>::empty()
        &&& self.applied_peer_revocations == 0
        &&& self.alerts == 0
        &&& self.calibration_errors == 0
        &&& self.datagrams == (DatagramStats { accepted: 0, rejected: 0, fragments: 0 })
    }
}

/// `result` is what opening the gateway owes: the observation store is opened
/// first, then the event store, each at its segment size; the first that does
/// not open is named in the error, with its own words.
pub open spec fn open_gateway_yields<
    O: FnOnce(usize) -> Result<ObservationStore, String>,
    E: FnOnce(usize) -> Result<EventStore, String>,
>(config: GatewayConfig, open_obs: O, open_events: E, result: Result<Inner, String>) -> bool {
    exists|obs: Result<ObservationStore, String>| #[trigger]
        call_ensures(open_obs, (OBS_SEGMENT_MAX_RECORDS,), obs) && match obs {
            Err(reason) => result is Err && result->Err_0@ == "open observation store: "@ + reason@,
            Ok(obs) => exists|events: Result<EventStore, String>| #[trigger]
                call_ensures(open_events, (EVT_SEGMENT_MAX_RECORDS,), events) && match events {
                    Err(reason) => result is Err && result->Err_0@ == "open event store: "@
                        + reason@,
                    Ok(events) => result is Ok && result->Ok_0.fresh(config, obs, events),
                },
        }
}

impl Inner {
    /// Build the component stack. The durable stores are opened through
    /// `open_obs` and `open_events`, each of which is handed the number of
    /// records a segment may hold; the second is called only where the first
    /// gave a store.
    pub fn open<
        O: FnOnce(usize) -> Result<ObservationStore, String>,
        E: FnOnce(usize) -> Result<EventStore, String>,
    >(config: &GatewayConfig, open_obs: O, open_events: E) -> (result: Result<Inner, String>)
        requires
            call_requires(open_obs, (OBS_SEGMENT_MAX_RECORDS,)),
            forall|obs: Result<ObservationStore, String>| #[trigger]
                call_ensures(open_obs, (OBS_SEGMENT_MAX_RECORDS,), obs) && obs is Ok
                    ==> call_requires(open_events, (EVT_SEGMENT_MAX_RECORDS,)),
        ensures
            open_gateway_yields(*config, open_obs, open_events, result),
    {
        let opened_obs = open_obs(OBS_SEGMENT_MAX_RECORDS);
        let ghost obs_given = opened_obs;
        assert(call_ensures(open_obs, (OBS_SEGMENT_MAX_RECORDS,), obs_given));
        let obs = match opened_obs {
            Ok(obs) => obs,
            Err(reason) => {
                let mut text = "open observation store: ".to_owned();
                text.append(reason.as_str());
                return Err(text);
            },
        };
        let opened_events = open_events(EVT_SEGMENT_MAX_RECORDS);
        let ghost events_given = opened_events;
        assert(call_ensures(open_events, (EVT_SEGMENT_MAX_RECORDS,), events_given));
        let events = match opened_events {
            Ok(events) => events,
            Err(reason) => {
                let mut text = "open event store: ".to_owned();
                text.append(reason.as_str());
                return Err(text);
            },
        };
        let seed = biome_seed(config.biome_id.as_str(), config.seed);
        let biome = Biome::new(
            config.spec_version.clone(),
            config.biome_id.clone(),
            seed,
            Vec::new(),
        );
        Ok(
            Inner {
                registry: NodeRegistry::new(),
                calibration: CalibrationStore::new(),
                biome,
                obs,
                events,
                peer_summaries: Vec::new(),
                applied_revocation_ids: StringHashSet::new(),
                applied_peer_revocations: 0,
                alerts: 0,
                calibration_errors: 0,
                datagrams: DatagramStats { accepted: 0, rejected: 0, fragments: 0 },
            },
        )
    }
}

/// **The same configuration reproduces the identity**: gateways started from
/// it sign with the same key.
pub proof fn law_same_config_same_identity(
    config: GatewayConfig,
    a: Inner,
    obs_a: ObservationStore,
    events_a: EventStore,
    b: Inner,
    obs_b: ObservationStore,
    events_b: EventStore,
)
    requires
        a.fresh(config, obs_a, events_a),
        b.fresh(config, obs_b, events_b),
    ensures
        a.biome@ == b.biome@,
{
}

} // verus!
