//! The portable BLE data model.

use vstd::prelude::*;

verus! {

/// The views of a sequence of strings.
pub open spec fn strs(v: Seq<String>) -> Seq<Seq<char>> {
    v.map_values(|s: String| s@)
}

/// The view of an optional string.
pub open spec fn opt_chars(o: Option<String>) -> Option<Seq<char>> {
    match o {
        Some(s) => Some(s@),
        None => None,
    }
}

#[derive(Debug, Clone, Copy, PartialEq, Eq, Structural)]
pub enum AddressType {
    Public,
    RandomStatic,
    ResolvablePrivate,
    NonResolvablePrivate,
    Unknown,
}

#[derive(Debug, Clone, PartialEq, Eq)]
pub struct ManufacturerData {
    pub company_id: u16,
    pub data: Vec<u8>,
}

#[derive(Debug, Clone, PartialEq, Eq)]
pub struct ServiceData {
    pub uuid: String,
    pub data: Vec<u8>,
}

/// One received BLE advertisement.
#[derive(Debug, Clone, PartialEq, Eq)]
pub struct Advertisement {
    pub address: String,
    pub address_type: AddressType,
    pub local_name: Option<String>,
    pub rssi_dbm: i16,
    pub tx_power_dbm: Option<i16>,
    pub connectable: Option<bool>,
    pub service_uuids: Vec<String>,
    pub manufacturer_data: Vec<ManufacturerData>,
    pub service_data: Vec<ServiceData>,
    /// Stable identity decoded by a protocol-specific adapter, when available.
    /// It is hashed before entering history or chronicle records.
    pub protocol_identity: Option<String>,
}

/// Context supplied by the sensor, never inferred from RSSI.
#[derive(Debug, Clone, PartialEq, Eq)]
pub struct SensorContext {
    pub sensor_id: String,
    /// Caller-owned physical or logical zone used for concurrent-clone evidence.
    pub zone: Option<String>,
    /// Caller-owned movement segment. Repeated sightings across distinct moving
    /// segments are the minimum evidence for a co-travel warning.
    pub movement_session: Option<String>,
    pub sensor_is_moving: bool,
}

#[derive(Debug, Clone, PartialEq, Eq)]
pub struct Observation {
    pub monotonic_ms: u64,
    pub unix_epoch_ms: Option<i64>,
    pub context: SensorContext,
    pub advertisement: Advertisement,
}

#[derive(Debug, Clone, Copy, PartialEq, Eq, PartialOrd, Ord, Structural)]
pub enum IdentityConfidence {
    Protocol,
    CallerProvided,
    StaticAddress,
    EphemeralAddress,
}

/// Whether an identity of this confidence is strong enough for clone evidence.
pub open spec fn supports_clone(c: IdentityConfidence) -> bool {
    c is Protocol || c is CallerProvided
}

impl IdentityConfidence {
    pub fn supports_clone_evidence(self) -> (r: bool)
        ensures
            r == supports_clone(self),
    {
        match self {
            IdentityConfidence::Protocol | IdentityConfidence::CallerProvided => true,
            _ => false,
        }
    }
}

#[derive(Debug, Clone, PartialEq, Eq)]
pub struct Identity {
    /// Opaque deterministic key. It is a fingerprint, not a cryptographic
    /// anonymization guarantee.
    pub key: String,
    pub confidence: IdentityConfidence,
    pub protocol: Option<String>,
}

/// The abstract value of an [`Identity`].
pub struct IdentityView {
    pub key: Seq<char>,
    pub confidence: IdentityConfidence,
    pub protocol: Option<Seq<char>>,
}

impl View for Identity {
    type V = IdentityView;

    open spec fn view(&self) -> IdentityView {
        IdentityView { key: self.key@, confidence: self.confidence, protocol: opt_chars(self.protocol) }
    }
}

impl Identity {
    pub fn duplicate(&self) -> (r: Identity)
        ensures
            r@ == self@,
    {
        Identity {
            key: self.key.clone(),
            confidence: self.confidence,
            protocol: match &self.protocol {
                Some(p) => Some(p.clone()),
                None => None,
            },
        }
    }
}

#[derive(Debug, Clone, PartialEq, Eq)]
pub struct DeviceHistory {
    pub identity: Identity,
    pub first_seen_ms: u64,
    pub last_seen_ms: u64,
    pub observation_count: u64,
    pub sensor_count: usize,
    pub movement_session_count: usize,
    pub rssi_min_dbm: i16,
    pub rssi_max_dbm: i16,
    pub rssi_mean_dbm: i16,
    pub last_payload_hash: String,
}

/// The abstract value of a [`DeviceHistory`].
pub struct DeviceHistoryView {
    pub identity: IdentityView,
    pub first_seen_ms: u64,
    pub last_seen_ms: u64,
    pub observation_count: u64,
    pub sensor_count: usize,
    pub movement_session_count: usize,
    pub rssi_min_dbm: i16,
    pub rssi_max_dbm: i16,
    pub rssi_mean_dbm: i16,
    pub last_payload_hash: Seq<char>,
}

impl View for DeviceHistory {
    type V = DeviceHistoryView;

    open spec fn view(&self) -> DeviceHistoryView {
        DeviceHistoryView {
            identity: self.identity@,
            first_seen_ms: self.first_seen_ms,
            last_seen_ms: self.last_seen_ms,
            observation_count: self.observation_count,
            sensor_count: self.sensor_count,
            movement_session_count: self.movement_session_count,
            rssi_min_dbm: self.rssi_min_dbm,
            rssi_max_dbm: self.rssi_max_dbm,
            rssi_mean_dbm: self.rssi_mean_dbm,
            last_payload_hash: self.last_payload_hash@,
        }
    }
}

impl DeviceHistory {
    pub fn duplicate(&self) -> (r: DeviceHistory)
        ensures
            r@ == self@,
    {
        DeviceHistory {
            identity: self.identity.duplicate(),
            first_seen_ms: self.first_seen_ms,
            last_seen_ms: self.last_seen_ms,
            observation_count: self.observation_count,
            sensor_count: self.sensor_count,
            movement_session_count: self.movement_session_count,
            rssi_min_dbm: self.rssi_min_dbm,
            rssi_max_dbm: self.rssi_max_dbm,
            rssi_mean_dbm: self.rssi_mean_dbm,
            last_payload_hash: self.last_payload_hash.clone(),
        }
    }
}

#[derive(Debug, Clone, Copy, PartialEq, Eq, Structural)]
pub enum RiskKind {
    PersistentUnknown,
    CoTravel,
    Disappeared,
    PossibleClone,
    BeaconFlood,
}

#[derive(Debug, Clone, Copy, PartialEq, Eq, Structural)]
pub enum RiskSeverity {
    Info,
    Warning,
    High,
}

#[derive(Debug, Clone, PartialEq, Eq)]
pub struct Finding {
    pub kind: RiskKind,
    pub severity: RiskSeverity,
    pub identity_key: Option<String>,
    pub observed_at_ms: u64,
    pub summary: String,
    pub evidence: Vec<String>,
    pub limitations: Vec<String>,
}

/// The abstract value of a [`Finding`].
pub struct FindingView {
    pub kind: RiskKind,
    pub severity: RiskSeverity,
    pub identity_key: Option<Seq<char>>,
    pub observed_at_ms: u64,
    pub summary: Seq<char>,
    pub evidence: Seq<Seq<char>>,
    pub limitations: Seq<Seq<char>>,
}

impl View for Finding {
    type V = FindingView;

    open spec fn view(&self) -> FindingView {
        FindingView {
            kind: self.kind,
            severity: self.severity,
            identity_key: opt_chars(self.identity_key),
            observed_at_ms: self.observed_at_ms,
            summary: self.summary@,
            evidence: strs(self.evidence@),
            limitations: strs(self.limitations@),
        }
    }
}

/// A copy of a list of strings.
fn copy_strings(v: &Vec<String>) -> (r: Vec<String>)
    ensures
        strs(r@) == strs(v@),
{
    let mut r: Vec<String> = Vec::new();
    let mut i: usize = 0;
    while i < v.len()
        invariant
            i <= v@.len(),
            strs(r@) == strs(v@.subrange(0, i as int)),
        decreases v.len() - i,
    {
        let s = v[i].clone();
        proof {
            assert(strs(r@.push(s)) =~= strs(r@).push(s@));
            assert(v@.subrange(0, i + 1) =~= v@.subrange(0, i as int).push(v@[i as int]));
            assert(strs(v@.subrange(0, i + 1)) =~= strs(v@.subrange(0, i as int)).push(v@[i as int]@));
        }
        r.push(s);
        i = i + 1;
    }
    assert(v@.subrange(0, v@.len() as int) =~= v@);
    r
}

impl Finding {
    /// A copy of the finding.
    pub fn duplicate(&self) -> (r: Finding)
        ensures
            r@ == self@,
    {
        Finding {
            kind: self.kind,
            severity: self.severity,
            identity_key: match &self.identity_key {
                Some(k) => Some(k.clone()),
                None => None,
            },
            observed_at_ms: self.observed_at_ms,
            summary: self.summary.clone(),
            evidence: copy_strings(&self.evidence),
            limitations: copy_strings(&self.limitations),
        }
    }
}

/// The views of a sequence of findings.
pub open spec fn finding_views(v: Seq<Finding>) -> Seq<FindingView> {
    v.map_values(|f: Finding| f@)
}

#[derive(Debug, Clone, PartialEq, Eq)]
pub struct ObservationResult {
    pub identity: Identity,
    pub payload_hash: String,
    pub history: DeviceHistory,
    pub findings: Vec<Finding>,
}

/// The abstract value of an [`ObservationResult`].
pub struct ObservationResultView {
    pub identity: IdentityView,
    pub payload_hash: Seq<char>,
    pub history: DeviceHistoryView,
    pub findings: Seq<FindingView>,
}

impl View for ObservationResult {
    type V = ObservationResultView;

    open spec fn view(&self) -> ObservationResultView {
        ObservationResultView {
            identity: self.identity@,
            payload_hash: self.payload_hash@,
            history: self.history@,
            findings: finding_views(self.findings@),
        }
    }
}

#[derive(Debug, Clone, PartialEq, Eq)]
pub struct TrackerPolicy {
    pub persistent_unknown_ms: u64,
    pub co_travel_min_sessions: usize,
    pub disappearance_ms: u64,
    pub clone_window_ms: u64,
    pub flood_window_ms: u64,
    pub flood_unique_identities: usize,
    pub allowlisted_identity_keys: Vec<String>,
    pub expected_identity_keys: Vec<String>,
}

/// The abstract value of a [`TrackerPolicy`].
pub struct TrackerPolicyView {
    pub persistent_unknown_ms: u64,
    pub co_travel_min_sessions: usize,
    pub disappearance_ms: u64,
    pub clone_window_ms: u64,
    pub flood_window_ms: u64,
    pub flood_unique_identities: usize,
    pub allowlisted_identity_keys: Seq<Seq<char>>,
    pub expected_identity_keys: Seq<Seq<char>>,
}

impl View for TrackerPolicy {
    type V = TrackerPolicyView;

    open spec fn view(&self) -> TrackerPolicyView {
        TrackerPolicyView {
            persistent_unknown_ms: self.persistent_unknown_ms,
            co_travel_min_sessions: self.co_travel_min_sessions,
            disappearance_ms: self.disappearance_ms,
            clone_window_ms: self.clone_window_ms,
            flood_window_ms: self.flood_window_ms,
            flood_unique_identities: self.flood_unique_identities,
            allowlisted_identity_keys: strs(self.allowlisted_identity_keys@),
            expected_identity_keys: strs(self.expected_identity_keys@),
        }
    }
}

impl Default for TrackerPolicy {
    /// Thirty minutes of persistence, three moving sessions, five minutes of
    /// absence, a ten-second clone window and a hundred identities per
    /// one-minute flood window; nothing allowlisted or expected.
    fn default() -> (p: Self)
        ensures
            p.persistent_unknown_ms == 1_800_000,
            p.co_travel_min_sessions == 3,
            p.disappearance_ms == 300_000,
            p.clone_window_ms == 10_000,
            p.flood_window_ms == 60_000,
            p.flood_unique_identities == 100,
            p.allowlisted_identity_keys@.len() == 0,
            p.expected_identity_keys@.len() == 0,
    {
        TrackerPolicy {
            persistent_unknown_ms: 30 * 60 * 1000,
            co_travel_min_sessions: 3,
            disappearance_ms: 5 * 60 * 1000,
            clone_window_ms: 10_000,
            flood_window_ms: 60_000,
            flood_unique_identities: 100,
            allowlisted_identity_keys: Vec::new(),
            expected_identity_keys: Vec::new(),
        }
    }
}

/// A source of advertisements: a platform scanner or a firmware adapter.
pub trait Collector {
    type Error;

    /// What the latest scan appended to the list it was handed. The
    /// implementations in this library define it; the default (nothing)
    /// stands for an implementation that does not describe its scans, whose
    /// contract is taken on trust.
    closed spec fn scanned(&self) -> Seq<Advertisement> {
        Seq::empty()
    }

    /// Whether the latest scan succeeded (defined alongside `scanned`).
    closed spec fn scan_succeeded(&self) -> bool {
        true
    }

    /// Appends the advertisements of one scan to `output`, keeping what it
    /// held before.
    fn scan(&mut self, output: &mut Vec<Advertisement>) -> (r: Result<(), Self::Error>)
        ensures
            final(output)@ == old(output)@ + final(self).scanned(),
            r is Ok <==> final(self).scan_succeeded(),
    ;
}

/// The advertisements of the latest scan.
#[derive(Debug, Default)]
pub struct Snapshot {
    pub advertisements: Vec<Advertisement>,
}

impl Snapshot {
    pub fn new() -> (s: Self)
        ensures
            s.advertisements@.len() == 0,
    {
        Snapshot { advertisements: Vec::new() }
    }

    /// Replaces the advertisements with those of a fresh scan: the list is
    /// emptied and then handed to the collector, so that afterwards it holds
    /// exactly what the scan appended, whether the scan succeeded or not.
    pub fn refresh<C: Collector>(&mut self, collector: &mut C) -> (r: Result<(), C::Error>)
        ensures
            final(self).advertisements@ == final(collector).scanned(),
            r is Ok <==> final(collector).scan_succeeded(),
    {
        self.advertisements.clear();
        let r = collector.scan(&mut self.advertisements);
        assert(self.advertisements@ =~= Seq::<Advertisement>::empty() + collector.scanned());
        r
    }
}

} // verus!
