//! Per-identity history and the stateful risk detectors.

use std::collections::VecDeque;

use vstd::prelude::*;

use crate::ble::findings::{co_travel, co_travel_spec, one_string, persistent, persistent_spec, two_strings};
use crate::ble::fingerprint::{identify, identify_spec, payload_hash, payload_hash_spec};
use crate::ble::model::{
    finding_views, opt_chars, supports_clone, DeviceHistory, DeviceHistoryView, Finding,
    FindingView, Identity, IdentityView, Observation, ObservationResult, ObservationResultView,
    RiskKind, RiskSeverity, TrackerPolicy, TrackerPolicyView,
};
use crate::keyed::OrderedMap;
use crate::text::{
    decimal, lemma_str_leq_antisymmetric, push_decimal, str_le, str_leq, str_lt,
};

verus! {

/// Where and when a sensor last saw an identity.
pub struct SensorSeen {
    at_ms: u64,
    zone: Option<String>,
}

/// The abstract value of a sensor sighting.
pub struct SensorSeenView {
    pub at_ms: u64,
    pub zone: Option<Seq<char>>,
}

impl View for SensorSeen {
    type V = SensorSeenView;

    closed spec fn view(&self) -> SensorSeenView {
        SensorSeenView { at_ms: self.at_ms, zone: opt_chars(self.zone) }
    }
}

/// What the tracker keeps about one identity.
pub struct State {
    history: DeviceHistory,
    rssi_sum: i64,
    sensors: OrderedMap<SensorSeen>,
    movement_sessions: OrderedMap<()>,
    persistent_reported: bool,
    co_travel_reported: bool,
    disappearance_reported: bool,
    clone_pairs: OrderedMap<()>,
}

/// The abstract value of the state of one identity.
pub struct StateView {
    pub history: DeviceHistoryView,
    pub rssi_sum: i64,
    pub sensors: Map<Seq<char>, SensorSeenView>,
    pub movement_sessions: Set<Seq<char>>,
    pub persistent_reported: bool,
    pub co_travel_reported: bool,
    pub disappearance_reported: bool,
    pub clone_pairs: Set<Seq<char>>,
}

impl View for State {
    type V = StateView;

    closed spec fn view(&self) -> StateView {
        StateView {
            history: self.history@,
            rssi_sum: self.rssi_sum,
            sensors: self.sensors@,
            movement_sessions: self.movement_sessions@.dom(),
            persistent_reported: self.persistent_reported,
            co_travel_reported: self.co_travel_reported,
            disappearance_reported: self.disappearance_reported,
            clone_pairs: self.clone_pairs@.dom(),
        }
    }
}

/// `x` clamped to the range of `i64`.
pub open spec fn sat_i64(x: int) -> i64 {
    if x > i64::MAX {
        i64::MAX
    } else if x < i64::MIN {
        i64::MIN
    } else {
        x as i64
    }
}

pub open spec fn abs(x: int) -> int {
    if x < 0 { -x } else { x }
}

/// Integer division rounding toward zero.
pub open spec fn trunc_div(a: int, b: int) -> int {
    let q = abs(a) / abs(b);
    if (a < 0) == (b < 0) { q } else { -q }
}

/// The mean signal strength: the sum divided by the count taken as a signed
/// 64-bit number, rounded toward zero and narrowed to 16 bits.
pub open spec fn mean_of(sum: i64, count: u64) -> i16 {
    (trunc_div(sum as int, (count as i64) as int) as i64) as i16
}

/// Distance between two instants.
pub open spec fn abs_diff(a: u64, b: u64) -> u64 {
    if a >= b { (a - b) as u64 } else { (b - a) as u64 }
}

/// Two sensor ids in order, joined by a NUL character.
pub open spec fn ordered_pair(a: Seq<char>, b: Seq<char>) -> Seq<char> {
    if str_leq(a, b) {
        a + seq!['\0'] + b
    } else {
        b + seq!['\0'] + a
    }
}

/// A sensor whose last sighting, together with this observation, is fresh
/// evidence that the identity was in two zones at once.
pub open spec fn clone_eligible(st: StateView, policy: TrackerPolicyView, obs: Observation, k: Seq<char>) -> bool {
    &&& st.sensors.dom().contains(k)
    &&& st.sensors[k].zone is Some
    &&& obs.context.zone is Some
    &&& k != obs.context.sensor_id@
    &&& st.sensors[k].zone->0 != opt_chars(obs.context.zone)->0
    &&& abs_diff(obs.monotonic_ms, st.sensors[k].at_ms) <= policy.clone_window_ms
    &&& !st.clone_pairs.contains(ordered_pair(k, obs.context.sensor_id@))
}

/// An eligible sensor that comes first in id order.
pub open spec fn first_eligible(st: StateView, policy: TrackerPolicyView, obs: Observation, k: Seq<char>) -> bool {
    clone_eligible(st, policy, obs, k) && forall|k2: Seq<char>|
        clone_eligible(st, policy, obs, k2) ==> str_leq(k, k2)
}

/// Whether clone evidence may rest on this sighting: both the identity first
/// recorded under the key and the one decoded from the advertisement now
/// are decoded protocol or caller-supplied identities.
pub open spec fn clone_capable(st: StateView, obs: Observation) -> bool {
    supports_clone(st.history.identity.confidence) && supports_clone(identify_spec(obs.advertisement).confidence)
}

/// The first sensor, in id order, that gives new clone evidence; only strong
/// identities are considered.
pub open spec fn clone_choice(st: StateView, policy: TrackerPolicyView, obs: Observation) -> Option<Seq<char>> {
    if clone_capable(st, obs) && exists|k: Seq<char>| first_eligible(st, policy, obs, k) {
        Some(choose|k: Seq<char>| first_eligible(st, policy, obs, k))
    } else {
        None
    }
}

/// The clone finding against the earlier sighting by sensor `k`.
pub open spec fn clone_finding_spec(st: StateView, obs: Observation, k: Seq<char>) -> FindingView {
    FindingView {
        kind: RiskKind::PossibleClone,
        severity: RiskSeverity::High,
        identity_key: Some(st.history.identity.key),
        observed_at_ms: obs.monotonic_ms,
        summary: "Strong BLE identity was observed in two zones concurrently"@,
        evidence: seq![
            "zones="@ + st.sensors[k].zone->0 + ","@ + opt_chars(obs.context.zone)->0
                + ", separation_ms="@ + decimal(abs_diff(obs.monotonic_ms, st.sensors[k].at_ms) as nat),
        ],
        limitations: seq![
            "Sensor clocks and zone assignment must be trustworthy"@,
            "This is clone evidence, not proof of malicious intent"@,
        ],
    }
}

/// The clone step: the pairs of sensors already reported, and the finding.
pub open spec fn clone_step(st: StateView, policy: TrackerPolicyView, obs: Observation) -> (Set<Seq<char>>, Seq<FindingView>) {
    match clone_choice(st, policy, obs) {
        Some(k) => (
            st.clone_pairs.insert(ordered_pair(k, obs.context.sensor_id@)),
            seq![clone_finding_spec(st, obs, k)],
        ),
        None => (st.clone_pairs, seq![]),
    }
}

/// The state of an identity first seen now, before its first observation is counted.
pub open spec fn fresh_state(identity: IdentityView, now: u64, payload: Seq<char>, rssi: i16) -> StateView {
    StateView {
        history: DeviceHistoryView {
            identity,
            first_seen_ms: now,
            last_seen_ms: now,
            observation_count: 0,
            sensor_count: 0,
            movement_session_count: 0,
            rssi_min_dbm: rssi,
            rssi_max_dbm: rssi,
            rssi_mean_dbm: rssi,
            last_payload_hash: payload,
        },
        rssi_sum: 0,
        sensors: Map::empty(),
        movement_sessions: Set::empty(),
        persistent_reported: false,
        co_travel_reported: false,
        disappearance_reported: false,
        clone_pairs: Set::empty(),
    }
}

/// The movement sessions after an observation: a moving sensor adds its session.
pub open spec fn sessions_after(sessions: Set<Seq<char>>, obs: Observation) -> Set<Seq<char>> {
    if obs.context.sensor_is_moving && obs.context.movement_session is Some {
        sessions.insert(opt_chars(obs.context.movement_session)->0)
    } else {
        sessions
    }
}

/// One observation of an identity: its history is updated, clone evidence is
/// checked against the other sensors, and an unknown (not allowlisted)
/// identity is reported once for persistence and once for co-travel.
pub open spec fn state_step(
    st: StateView,
    policy: TrackerPolicyView,
    obs: Observation,
    payload: Seq<char>,
    allowlisted: bool,
) -> (StateView, Seq<FindingView>) {
    let now = obs.monotonic_ms;
    let rssi = obs.advertisement.rssi_dbm;
    let (pairs, clone_findings) = clone_step(st, policy, obs);
    let count = st.history.observation_count.saturating_add(1);
    let sum = sat_i64(st.rssi_sum + rssi);
    let sessions = sessions_after(st.movement_sessions, obs);
    let sensors = st.sensors.insert(
        obs.context.sensor_id@,
        SensorSeenView { at_ms: now, zone: opt_chars(obs.context.zone) },
    );
    let history = DeviceHistoryView {
        identity: st.history.identity,
        first_seen_ms: st.history.first_seen_ms,
        last_seen_ms: now,
        observation_count: count,
        sensor_count: sensors.dom().len() as usize,
        movement_session_count: sessions.len() as usize,
        rssi_min_dbm: if rssi < st.history.rssi_min_dbm { rssi } else { st.history.rssi_min_dbm },
        rssi_max_dbm: if rssi > st.history.rssi_max_dbm { rssi } else { st.history.rssi_max_dbm },
        rssi_mean_dbm: mean_of(sum, count),
        last_payload_hash: payload,
    };
    let persist = !allowlisted && !st.persistent_reported
        && now.saturating_sub(st.history.first_seen_ms) >= policy.persistent_unknown_ms;
    let travel = !allowlisted && !st.co_travel_reported && sessions.len() >= policy.co_travel_min_sessions;
    let findings = clone_findings
        + (if persist { seq![persistent_spec(history, now)] } else { seq![] })
        + (if travel { seq![co_travel_spec(history, now)] } else { seq![] });
    (
        StateView {
            history,
            rssi_sum: sum,
            sensors,
            movement_sessions: sessions,
            persistent_reported: st.persistent_reported || persist,
            co_travel_reported: st.co_travel_reported || travel,
            disappearance_reported: false,
            clone_pairs: pairs,
        },
        findings,
    )
}

fn opt_string(o: &Option<String>) -> (r: Option<String>)
    ensures
        opt_chars(r) == opt_chars(*o),
{
    match o {
        Some(s) => Some(s.clone()),
        None => None,
    }
}

/// The mean of `count` readings summing to `sum`, as the tracker reports it.
fn mean_dbm(sum: i64, count: u64) -> (m: i16)
    requires
        count > 0,
    ensures
        m == mean_of(sum, count),
{
    let c = count as i64;
    let a = sum as i128;
    let b = c as i128;
    assert(c != 0) by (bit_vector)
        requires
            count > 0,
            c == count as i64,
    ;
    let aa: i128 = if a < 0 { -a } else { a };
    let bb: i128 = if b < 0 { -b } else { b };
    let q = aa / bb;
    let r: i128 = if (a < 0) == (b < 0) { q } else { -q };
    (r as i64) as i16
}

fn saturating_add_i64(x: i64, y: i64) -> (r: i64)
    ensures
        r == sat_i64(x + y),
{
    match x.checked_add(y) {
        Some(v) => v,
        None => if y < 0 { i64::MIN } else { i64::MAX },
    }
}

fn abs_diff_u64(a: u64, b: u64) -> (r: u64)
    ensures
        r == abs_diff(a, b),
{
    if a >= b { a - b } else { b - a }
}

/// Two sensor ids in order, joined by a NUL character.
fn ordered_pair_of(left: &str, right: &str) -> (r: String)
    ensures
        r@ == ordered_pair(left@, right@),
{
    proof { reveal_strlit("\0"); }
    if str_le(left, right) {
        let mut s = left.to_owned();
        s.append("\0");
        s.append(right);
        s
    } else {
        let mut s = right.to_owned();
        s.append("\0");
        s.append(left);
        s
    }
}

impl State {
    fn new(identity: Identity, now: u64, payload: &String, rssi: i16) -> (s: State)
        ensures
            s@ == fresh_state(identity@, now, payload@, rssi),
    {
        let s = State {
            history: DeviceHistory {
                identity,
                first_seen_ms: now,
                last_seen_ms: now,
                observation_count: 0,
                sensor_count: 0,
                movement_session_count: 0,
                rssi_min_dbm: rssi,
                rssi_max_dbm: rssi,
                rssi_mean_dbm: rssi,
                last_payload_hash: payload.clone(),
            },
            rssi_sum: 0,
            sensors: OrderedMap::new(),
            movement_sessions: OrderedMap::new(),
            persistent_reported: false,
            co_travel_reported: false,
            disappearance_reported: false,
            clone_pairs: OrderedMap::new(),
        };
        proof {
            assert(s@.movement_sessions =~= Set::<Seq<char>>::empty());
            assert(s@.clone_pairs =~= Set::<Seq<char>>::empty());
        }
        s
    }

    #[verifier::rlimit(40)]
    fn clone_findings(&mut self, policy: &TrackerPolicy, observation: &Observation, strong: bool) -> (r: Vec<Finding>)
        requires
            strong == supports_clone(identify_spec(observation.advertisement).confidence),
        ensures
            final(self)@ == (StateView { clone_pairs: clone_step(old(self)@, policy@, *observation).0, ..old(self)@ }),
            finding_views(r@) == clone_step(old(self)@, policy@, *observation).1,
    {
        let ghost st = self@;
        let ghost obs = *observation;
        let ghost pol = policy@;
        if !strong || !self.history.identity.confidence.supports_clone_evidence() {
            return no_findings();
        }
        let zone = match &observation.context.zone {
            Some(z) => z,
            None => {
                assert(!exists|k: Seq<char>| clone_eligible(st, pol, obs, k));
                return no_findings();
            },
        };
        let sensor_id = &observation.context.sensor_id;
        let n = self.sensors.len();
        let mut i: usize = 0;
        while i < n
            invariant
                self@ == st,
                st == old(self)@,
                n == self.sensors.keys().len(),
                self.sensors.ordered(),
                i <= n,
                obs == *observation,
                pol == policy@,
                opt_chars(observation.context.zone) == Some(zone@),
                *sensor_id == observation.context.sensor_id,
                clone_capable(st, obs),
                forall|j: int| 0 <= j < i ==> !clone_eligible(st, pol, obs, #[trigger] self.sensors.keys()[j]),
            decreases n - i,
        {
            let sensor = self.sensors.key_at(i);
            let previous = self.sensors.value_at(i);
            let previous_zone = match &previous.zone {
                Some(z) => z,
                None => {
                    i = i + 1;
                    continue;
                },
            };
            let separation = abs_diff_u64(observation.monotonic_ms, previous.at_ms);
            proof {
                assert(self.sensors.keys().contains(sensor@));
                assert(st.sensors.dom().contains(sensor@));
                assert(st.sensors[sensor@] == previous@);
                assert(previous@.zone == Some(previous_zone@));
            }
            if same_text(sensor, sensor_id) || same_text(previous_zone, zone)
                || separation > policy.clone_window_ms {
                proof {
                    if sensor@ == sensor_id@ {
                        assert(sensor@ == obs.context.sensor_id@);
                    } else if previous_zone@ == zone@ {
                        assert(st.sensors[sensor@].zone->0 == opt_chars(obs.context.zone)->0);
                    } else {
                        assert(separation == abs_diff(obs.monotonic_ms, st.sensors[sensor@].at_ms));
                        assert(separation > pol.clone_window_ms);
                    }
                    assert(!clone_eligible(st, pol, obs, sensor@));
                }
                i = i + 1;
                continue;
            }
            let pair = ordered_pair_of(sensor.as_str(), sensor_id.as_str());
            let ghost k = sensor@;
            let ghost before = self.clone_pairs@;
            if self.clone_pairs.upsert(pair, ()) {
                let r = one_finding(clone_finding(
                    &self.history.identity.key,
                    previous_zone,
                    zone,
                    observation.monotonic_ms,
                    separation,
                ));
                proof {
                    assert(clone_eligible(st, pol, obs, k));
                    lemma_clone_choice(st, pol, obs, self.sensors.keys(), i as int);
                    assert(self@.clone_pairs =~= st.clone_pairs.insert(ordered_pair(k, obs.context.sensor_id@)));
                    assert(self@ == (StateView { clone_pairs: clone_step(st, pol, obs).0, ..st }));
                    assert(finding_views(r@) =~= seq![clone_finding_spec(st, obs, k)]);
                }
                return r;
            }
            proof {
                assert(before.dom().contains(ordered_pair(k, obs.context.sensor_id@)));
                assert(self.clone_pairs@ =~= before);
            }
            i = i + 1;
        }
        proof {
            assert forall|k2: Seq<char>| !clone_eligible(st, pol, obs, k2) by {
                if clone_eligible(st, pol, obs, k2) {
                    assert(self.sensors.keys().contains(k2));
                }
            }
        }
        no_findings()
    }
}

/// Whether two strings are equal.
fn same_text(a: &String, b: &String) -> (r: bool)
    ensures
        r == (a@ == b@),
{
    a.eq(b)
}

/// The clone finding, from its parts.
fn clone_finding(key: &String, previous_zone: &String, zone: &String, now: u64, separation: u64) -> (f: Finding)
    ensures
        f@ == (FindingView {
            kind: RiskKind::PossibleClone,
            severity: RiskSeverity::High,
            identity_key: Some(key@),
            observed_at_ms: now,
            summary: "Strong BLE identity was observed in two zones concurrently"@,
            evidence: seq![
                "zones="@ + previous_zone@ + ","@ + zone@ + ", separation_ms="@ + decimal(separation as nat),
            ],
            limitations: seq![
                "Sensor clocks and zone assignment must be trustworthy"@,
                "This is clone evidence, not proof of malicious intent"@,
            ],
        }),
{
    let mut evidence = "zones=".to_owned();
    evidence.append(previous_zone.as_str());
    evidence.append(",");
    evidence.append(zone.as_str());
    evidence.append(", separation_ms=");
    push_decimal(&mut evidence, separation);
    let f = Finding {
        kind: RiskKind::PossibleClone,
        severity: RiskSeverity::High,
        identity_key: Some(key.clone()),
        observed_at_ms: now,
        summary: "Strong BLE identity was observed in two zones concurrently".to_owned(),
        evidence: one_string(evidence),
        limitations: two_strings(
            "Sensor clocks and zone assignment must be trustworthy".to_owned(),
            "This is clone evidence, not proof of malicious intent".to_owned(),
        ),
    };
    assert(f@.evidence =~= seq![
        "zones="@ + previous_zone@ + ","@ + zone@ + ", separation_ms="@ + decimal(separation as nat),
    ]);
    assert(f@.limitations =~= seq![
        "Sensor clocks and zone assignment must be trustworthy"@,
        "This is clone evidence, not proof of malicious intent"@,
    ]);
    f
}

/// The first eligible sensor in key order is the chosen one.
proof fn lemma_clone_choice(st: StateView, pol: TrackerPolicyView, obs: Observation, keys: Seq<Seq<char>>, i: int)
    requires
        crate::keyed::strictly_sorted(keys),
        st.sensors.dom() == keys.to_set(),
        0 <= i < keys.len(),
        clone_capable(st, obs),
        clone_eligible(st, pol, obs, keys[i]),
        forall|j: int| 0 <= j < i ==> !clone_eligible(st, pol, obs, #[trigger] keys[j]),
    ensures
        clone_choice(st, pol, obs) == Some(keys[i]),
{
    let k = keys[i];
    assert forall|k2: Seq<char>| clone_eligible(st, pol, obs, k2) implies str_leq(k, k2) by {
        assert(keys.to_set().contains(k2));
        let j = choose|j: int| 0 <= j < keys.len() && keys[j] == k2;
        if j > i {
            assert(str_lt(keys[i], keys[j]));
        } else if j == i {
            crate::text::lemma_str_leq_reflexive(k);
        }
    }
    assert(first_eligible(st, pol, obs, k));
    let c = choose|c: Seq<char>| first_eligible(st, pol, obs, c);
    assert(str_leq(c, k) && str_leq(k, c));
    lemma_str_leq_antisymmetric(c, k);
}

fn no_findings() -> (v: Vec<Finding>)
    ensures
        finding_views(v@) == Seq::<FindingView>::empty(),
{
    let v = Vec::new();
    assert(finding_views(v@) =~= Seq::<FindingView>::empty());
    v
}

fn one_finding(f: Finding) -> (v: Vec<Finding>)
    ensures
        v@ == seq![f],
{
    let mut v = Vec::new();
    v.push(f);
    assert(v@ =~= seq![f]);
    v
}

impl State {
    /// Counts one observation of this identity and returns its findings.
    #[verifier::rlimit(40)]
    fn observe(
        &mut self,
        policy: &TrackerPolicy,
        observation: &Observation,
        payload: &String,
        allowlisted: bool,
        strong: bool,
    ) -> (r: Vec<Finding>)
        requires
            strong == supports_clone(identify_spec(observation.advertisement).confidence),
        ensures
            final(self)@ == state_step(old(self)@, policy@, *observation, payload@, allowlisted).0,
            finding_views(r@) == state_step(old(self)@, policy@, *observation, payload@, allowlisted).1,
    {
        let ghost st = self@;
        let now = observation.monotonic_ms;
        let rssi = observation.advertisement.rssi_dbm;
        let mut findings = self.clone_findings(policy, observation, strong);
        let ghost clone_part = finding_views(findings@);

        self.history.last_seen_ms = now;
        self.history.observation_count = self.history.observation_count.saturating_add(1);
        if rssi < self.history.rssi_min_dbm {
            self.history.rssi_min_dbm = rssi;
        }
        if rssi > self.history.rssi_max_dbm {
            self.history.rssi_max_dbm = rssi;
        }
        self.rssi_sum = saturating_add_i64(self.rssi_sum, rssi as i64);
        self.history.rssi_mean_dbm = mean_dbm(self.rssi_sum, self.history.observation_count);
        self.history.last_payload_hash = payload.clone();
        self.disappearance_reported = false;

        if observation.context.sensor_is_moving {
            if let Some(session) = &observation.context.movement_session {
                self.movement_sessions.upsert(session.clone(), ());
            }
        }
        self.sensors.upsert(
            observation.context.sensor_id.clone(),
            SensorSeen { at_ms: now, zone: opt_string(&observation.context.zone) },
        );
        self.history.sensor_count = self.sensors.len();
        self.history.movement_session_count = self.movement_sessions.len();
        proof {
            assert(self@.movement_sessions =~= sessions_after(st.movement_sessions, *observation));
            assert(self@.history == state_step(st, policy@, *observation, payload@, allowlisted).0.history);
        }
        let ghost h = self@.history;

        let persist = !allowlisted && !self.persistent_reported
            && now.saturating_sub(self.history.first_seen_ms) >= policy.persistent_unknown_ms;
        if persist {
            self.persistent_reported = true;
            findings.push(persistent(&self.history, now));
        }
        let ghost after_persist = finding_views(findings@);
        proof {
            assert(after_persist =~= clone_part + (if persist { seq![persistent_spec(h, now)] } else { seq![] }));
        }
        let travel = !allowlisted && !self.co_travel_reported
            && self.movement_sessions.len() >= policy.co_travel_min_sessions;
        if travel {
            self.co_travel_reported = true;
            findings.push(co_travel(&self.history, now));
        }
        proof {
            assert(finding_views(findings@) =~= after_persist + (if travel { seq![co_travel_spec(h, now)] } else { seq![] }));
            assert(self@ == state_step(st, policy@, *observation, payload@, allowlisted).0);
        }
        findings
    }
}

/// The abstract value of a [`Tracker`].
pub struct TrackerView {
    pub policy: TrackerPolicyView,
    pub devices: Map<Seq<char>, StateView>,
    pub recent: Seq<(u64, Seq<char>)>,
    pub last_flood_at_ms: Option<u64>,
}

/// The views of the recent sightings.
pub open spec fn recent_view(d: Seq<(u64, String)>) -> Seq<(u64, Seq<char>)> {
    d.map_values(|e: (u64, String)| (e.0, e.1@))
}

/// The recent sightings without those at the front that fell out of the window.
pub open spec fn pruned(recent: Seq<(u64, Seq<char>)>, now: u64, window: u64) -> Seq<(u64, Seq<char>)>
    decreases recent.len(),
{
    if recent.len() > 0 && now.saturating_sub(recent[0].0) > window {
        pruned(recent.drop_first(), now, window)
    } else {
        recent
    }
}

/// The number of distinct identities among the recent sightings.
pub open spec fn distinct_identities(recent: Seq<(u64, Seq<char>)>) -> nat {
    recent.map_values(|e: (u64, Seq<char>)| e.1).to_set().len()
}

/// Whether the recent sightings amount to a beacon flood that is not
/// suppressed by a flood reported within the last window.
pub open spec fn flood_due(recent: Seq<(u64, Seq<char>)>, last: Option<u64>, now: u64, policy: TrackerPolicyView) -> bool {
    &&& distinct_identities(recent) >= policy.flood_unique_identities
    &&& !(last matches Some(l) && now.saturating_sub(l) <= policy.flood_window_ms)
}

/// The beacon-flood finding.
pub open spec fn flood_spec(count: nat, now: u64, window: u64) -> FindingView {
    FindingView {
        kind: RiskKind::BeaconFlood,
        severity: RiskSeverity::Warning,
        identity_key: None,
        observed_at_ms: now,
        summary: "Unusually many BLE identities appeared in one scan window"@,
        evidence: seq!["unique_identities="@ + decimal(count) + ", window_ms="@ + decimal(window as nat)],
        limitations: seq!["Crowded legitimate venues can produce the same pattern"@],
    }
}

/// What one observation does to the tracker, and what it returns.
pub open spec fn tracker_observe(t: TrackerView, obs: Observation) -> (TrackerView, ObservationResultView) {
    let identity = identify_spec(obs.advertisement);
    let payload = payload_hash_spec(obs.advertisement);
    let now = obs.monotonic_ms;
    let recent = pruned(t.recent, now, t.policy.flood_window_ms).push((now, identity.key));
    let allowlisted = t.policy.allowlisted_identity_keys.contains(identity.key);
    let st = if t.devices.dom().contains(identity.key) {
        t.devices[identity.key]
    } else {
        fresh_state(identity, now, payload, obs.advertisement.rssi_dbm)
    };
    let (st2, findings) = state_step(st, t.policy, obs, payload, allowlisted);
    let flood = flood_due(recent, t.last_flood_at_ms, now, t.policy);
    (
        TrackerView {
            policy: t.policy,
            devices: t.devices.insert(identity.key, st2),
            recent,
            last_flood_at_ms: if flood { Some(now) } else { t.last_flood_at_ms },
        },
        ObservationResultView {
            identity,
            payload_hash: payload,
            history: st2.history,
            findings: if flood {
                findings.push(flood_spec(distinct_identities(recent), now, t.policy.flood_window_ms))
            } else {
                findings
            },
        },
    )
}

/// The finding for an expected identity that has not been seen for too long.
pub open spec fn disappearance_spec(key: Seq<char>, last_seen: u64, now: u64) -> FindingView {
    FindingView {
        kind: RiskKind::Disappeared,
        severity: RiskSeverity::Warning,
        identity_key: Some(key),
        observed_at_ms: now,
        summary: "Expected BLE device is no longer observed"@,
        evidence: seq![
            "last_seen_ms="@ + decimal(last_seen as nat) + ", missing_for_ms="@
                + decimal(now.saturating_sub(last_seen) as nat),
        ],
        limitations: seq!["Radio obstruction, scan gaps and device sleep can also explain absence"@],
    }
}

/// Whether an expected identity is due to be reported as gone.
pub open spec fn disappeared(devices: Map<Seq<char>, StateView>, k: Seq<char>, policy: TrackerPolicyView, now: u64) -> bool {
    &&& devices.dom().contains(k)
    &&& !devices[k].disappearance_reported
    &&& now.saturating_sub(devices[k].history.last_seen_ms) >= policy.disappearance_ms
}

/// The expected identities checked in order: each one seen before, not yet
/// reported and missing for the disappearance time is reported once.
pub open spec fn evaluate_keys(
    devices: Map<Seq<char>, StateView>,
    keys: Seq<Seq<char>>,
    policy: TrackerPolicyView,
    now: u64,
) -> (Map<Seq<char>, StateView>, Seq<FindingView>)
    decreases keys.len(),
{
    if keys.len() == 0 {
        (devices, seq![])
    } else {
        let (d, f) = evaluate_keys(devices, keys.drop_last(), policy, now);
        let k = keys.last();
        if disappeared(d, k, policy, now) {
            (
                d.insert(k, StateView { disappearance_reported: true, ..d[k] }),
                f.push(disappearance_spec(k, d[k].history.last_seen_ms, now)),
            )
        } else {
            (d, f)
        }
    }
}

/// The tracked identities, each filed under the key of its own identity.
struct Devices {
    map: OrderedMap<State>,
}

/// Every tracked state is filed under the key of its identity.
pub open spec fn keyed_by_identity(devices: Map<Seq<char>, StateView>) -> bool {
    forall|k: Seq<char>| #[trigger] devices.dom().contains(k) ==> devices[k].history.identity.key == k
}

impl View for Devices {
    type V = Map<Seq<char>, StateView>;

    closed spec fn view(&self) -> Map<Seq<char>, StateView> {
        self.map@
    }
}

impl Devices {
    #[verifier::type_invariant]
    spec fn inv(&self) -> bool {
        keyed_by_identity(self.map@)
    }

    fn new() -> (d: Devices)
        ensures
            d@ == Map::<Seq<char>, StateView>::empty(),
    {
        Devices { map: OrderedMap::new() }
    }

    fn get(&self, key: &str) -> (r: Option<&State>)
        ensures
            keyed_by_identity(self@),
            match r {
                Some(s) => self@.dom().contains(key@) && s@ == self@[key@],
                None => !self@.dom().contains(key@),
            },
    {
        proof { use_type_invariant(self); }
        self.map.get(key)
    }

    /// Takes the state of `key` out, if there is one.
    fn take(&mut self, key: &str) -> (r: Option<State>)
        ensures
            keyed_by_identity(old(self)@),
            keyed_by_identity(final(self)@),
            match r {
                Some(s) => old(self)@.dom().contains(key@) && s@ == old(self)@[key@]
                    && final(self)@ == old(self)@.remove(key@),
                None => !old(self)@.dom().contains(key@) && final(self)@ == old(self)@,
            },
    {
        proof { use_type_invariant(&*self); }
        let mut map: OrderedMap<State> = OrderedMap::new();
        std::mem::swap(&mut map, &mut self.map);
        let r = match map.find(key) {
            Some(i) => {
                let (_, s) = map.remove_at(i);
                Some(s)
            },
            None => None,
        };
        self.map = map;
        r
    }

    /// Files a state under the key of its identity.
    fn put(&mut self, s: State)
        ensures
            keyed_by_identity(final(self)@),
            final(self)@ == old(self)@.insert(s@.history.identity.key, s@),
    {
        proof { use_type_invariant(&*self); }
        let mut map: OrderedMap<State> = OrderedMap::new();
        std::mem::swap(&mut map, &mut self.map);
        let key = s.history.identity.key.clone();
        map.upsert(key, s);
        self.map = map;
    }

    /// The histories, in key order.
    fn histories(&self) -> (r: Vec<DeviceHistory>)
        ensures
            r@.len() == self@.dom().len(),
            forall|i: int| 0 <= i < r@.len() ==> {
                &&& self@.dom().contains(#[trigger] r@[i].identity.key@)
                &&& r@[i]@ == self@[r@[i].identity.key@].history
            },
            forall|i: int, j: int| 0 <= i < j < r@.len() ==> str_lt(#[trigger] r@[i].identity.key@, #[trigger] r@[j].identity.key@),
    {
        proof { use_type_invariant(self); }
        let n = self.map.len();
        let mut out: Vec<DeviceHistory> = Vec::new();
        let mut i: usize = 0;
        while i < n
            invariant
                n == self.map.keys().len(),
                self.map.ordered(),
                keyed_by_identity(self.map@),
                i <= n,
                out@.len() == i,
                forall|j: int| 0 <= j < i ==> (#[trigger] out@[j]).identity.key@ == self.map.keys()[j]
                    && out@[j]@ == self.map@[self.map.keys()[j]].history,
            decreases n - i,
        {
            let state = self.map.value_at(i);
            proof {
                assert(self.map.keys().to_set().contains(self.map.keys()[i as int]));
                assert(self.map@.dom().contains(self.map.keys()[i as int]));
            }
            out.push(state.history.duplicate());
            i = i + 1;
        }
        proof {
            assert forall|a: int, b: int| 0 <= a < b < out@.len() implies str_lt(#[trigger] out@[a].identity.key@, #[trigger] out@[b].identity.key@) by {
                assert(str_lt(self.map.keys()[a], self.map.keys()[b]));
            }
            assert forall|a: int| 0 <= a < out@.len() implies self@.dom().contains(#[trigger] out@[a].identity.key@) by {
                assert(self.map.keys().to_set().contains(self.map.keys()[a]));
            }
        }
        out
    }
}

/// Stateful BLE risk detectors over a stream of observations.
pub struct Tracker {
    policy: TrackerPolicy,
    devices: Devices,
    recent: VecDeque<(u64, String)>,
    last_flood_at_ms: Option<u64>,
}

impl View for Tracker {
    type V = TrackerView;

    closed spec fn view(&self) -> TrackerView {
        TrackerView {
            policy: self.policy@,
            devices: self.devices@,
            recent: recent_view(self.recent@),
            last_flood_at_ms: self.last_flood_at_ms,
        }
    }
}

/// Whether `needle` is one of `values`.
fn contains(values: &Vec<String>, needle: &String) -> (r: bool)
    ensures
        r == crate::ble::model::strs(values@).contains(needle@),
{
    let mut i: usize = 0;
    while i < values.len()
        invariant
            i <= values@.len(),
            forall|j: int| 0 <= j < i ==> values@[j]@ != needle@,
        decreases values.len() - i,
    {
        if same_text(&values[i], needle) {
            assert(crate::ble::model::strs(values@)[i as int] == needle@);
            return true;
        }
        i = i + 1;
    }
    proof {
        if crate::ble::model::strs(values@).contains(needle@) {
            let j = choose|j: int| 0 <= j < values@.len() && crate::ble::model::strs(values@)[j] == needle@;
            assert(values@[j]@ == needle@);
        }
    }
    false
}

impl Tracker {
    pub fn new(policy: TrackerPolicy) -> (t: Tracker)
        ensures
            t@.policy == policy@,
            t@.devices == Map::<Seq<char>, StateView>::empty(),
            t@.recent == Seq::<(u64, Seq<char>)>::empty(),
            t@.last_flood_at_ms == None::<u64>,
    {
        let t = Tracker { policy, devices: Devices::new(), recent: VecDeque::new(), last_flood_at_ms: None };
        assert(t@.recent =~= Seq::<(u64, Seq<char>)>::empty());
        t
    }

    pub fn policy(&self) -> (p: &TrackerPolicy)
        ensures
            p@ == self@.policy,
    {
        &self.policy
    }

    /// The history of one identity, if it was ever observed.
    pub fn history(&self, identity_key: &str) -> (r: Option<&DeviceHistory>)
        ensures
            match r {
                Some(h) => self@.devices.dom().contains(identity_key@) && h@ == self@.devices[identity_key@].history,
                None => !self@.devices.dom().contains(identity_key@),
            },
    {
        match self.devices.get(identity_key) {
            Some(state) => Some(&state.history),
            None => None,
        }
    }

    /// The histories of all observed identities, in identity-key order.
    pub fn histories(&self) -> (r: Vec<DeviceHistory>)
        ensures
            r@.len() == self@.devices.dom().len(),
            forall|i: int| 0 <= i < r@.len() ==> {
                &&& self@.devices.dom().contains(#[trigger] r@[i].identity.key@)
                &&& r@[i]@ == self@.devices[r@[i].identity.key@].history
            },
            forall|i: int, j: int| 0 <= i < j < r@.len() ==> str_lt(#[trigger] r@[i].identity.key@, #[trigger] r@[j].identity.key@),
    {
        self.devices.histories()
    }

    fn prune_recent(&mut self, now_ms: u64)
        ensures
            final(self)@ == (TrackerView {
                recent: pruned(old(self)@.recent, now_ms, old(self)@.policy.flood_window_ms),
                ..old(self)@
            }),
    {
        let ghost goal = pruned(old(self)@.recent, now_ms, old(self)@.policy.flood_window_ms);
        while self.recent.len() > 0 && now_ms.saturating_sub(self.recent[0].0) > self.policy.flood_window_ms
            invariant
                goal == pruned(recent_view(self.recent@), now_ms, self.policy.flood_window_ms),
                self.policy == old(self).policy,
                self.devices == old(self).devices,
                self.last_flood_at_ms == old(self).last_flood_at_ms,
            decreases self.recent@.len(),
        {
            let ghost before = self.recent@;
            self.recent.pop_front();
            assert(recent_view(self.recent@) =~= recent_view(before).drop_first());
        }
    }

    fn flood_finding(&mut self, now_ms: u64) -> (r: Option<Finding>)
        ensures
            flood_due(old(self)@.recent, old(self)@.last_flood_at_ms, now_ms, old(self)@.policy) ==> {
                &&& r matches Some(f) && f@ == flood_spec(distinct_identities(old(self)@.recent), now_ms, old(self)@.policy.flood_window_ms)
                &&& final(self)@ == (TrackerView { last_flood_at_ms: Some(now_ms), ..old(self)@ })
            },
            !flood_due(old(self)@.recent, old(self)@.last_flood_at_ms, now_ms, old(self)@.policy) ==> {
                &&& r is None
                &&& final(self)@ == old(self)@
            },
    {
        let ghost rv = recent_view(self.recent@);
        let ghost ids_seq = rv.map_values(|e: (u64, Seq<char>)| e.1);
        let mut ids: OrderedMap<()> = OrderedMap::new();
        let n = self.recent.len();
        let mut i: usize = 0;
        while i < n
            invariant
                n == self.recent@.len(),
                rv == recent_view(self.recent@),
                ids_seq == rv.map_values(|e: (u64, Seq<char>)| e.1),
                i <= n,
                ids@.dom() == ids_seq.take(i as int).to_set(),
            decreases n - i,
        {
            let key = self.recent[i].1.clone();
            ids.upsert(key, ());
            proof {
                assert(ids_seq.take(i + 1) =~= ids_seq.take(i as int).push(ids_seq[i as int]));
                ids_seq.take(i as int).lemma_push_to_set_commute(ids_seq[i as int]);
                assert(ids@.dom() =~= ids_seq.take(i + 1).to_set());
            }
            i = i + 1;
        }
        let count = ids.len();
        proof {
            assert(ids_seq.take(n as int) =~= ids_seq);
        }
        let suppressed = match self.last_flood_at_ms {
            Some(last) => now_ms.saturating_sub(last) <= self.policy.flood_window_ms,
            None => false,
        };
        if count < self.policy.flood_unique_identities || suppressed {
            return None;
        }
        self.last_flood_at_ms = Some(now_ms);
        let mut evidence = "unique_identities=".to_owned();
        push_decimal(&mut evidence, count as u64);
        evidence.append(", window_ms=");
        push_decimal(&mut evidence, self.policy.flood_window_ms);
        let f = Finding {
            kind: RiskKind::BeaconFlood,
            severity: RiskSeverity::Warning,
            identity_key: None,
            observed_at_ms: now_ms,
            summary: "Unusually many BLE identities appeared in one scan window".to_owned(),
            evidence: one_string(evidence),
            limitations: one_string("Crowded legitimate venues can produce the same pattern".to_owned()),
        };
        proof {
            let spec_f = flood_spec(distinct_identities(rv), now_ms, self.policy.flood_window_ms);
            assert(f@.evidence =~= spec_f.evidence);
            assert(f@.limitations =~= spec_f.limitations);
        }
        Some(f)
    }
    /// Adds one observation to history and returns what it revealed.
    pub fn observe(&mut self, observation: Observation) -> (r: ObservationResult)
        ensures
            final(self)@ == tracker_observe(old(self)@, observation).0,
            r@ == tracker_observe(old(self)@, observation).1,
    {
        let ghost t = self@;
        let identity = identify(&observation.advertisement);
        let payload = payload_hash(&observation.advertisement);
        let now = observation.monotonic_ms;
        self.prune_recent(now);
        self.recent.push_back((now, identity.key.clone()));
        proof {
            assert(recent_view(self.recent@) =~= pruned(t.recent, now, t.policy.flood_window_ms).push((now, identity@.key)));
        }
        let allowlisted = contains(&self.policy.allowlisted_identity_keys, &identity.key);
        let mut state = match self.devices.take(identity.key.as_str()) {
            Some(s) => s,
            None => State::new(identity.duplicate(), now, &payload, observation.advertisement.rssi_dbm),
        };
        proof {
            if t.devices.dom().contains(identity@.key) {
                assert(state@.history.identity.key == identity@.key);
            }
        }
        let ghost before = state@;
        let strong = identity.confidence.supports_clone_evidence();
        let mut findings = state.observe(&self.policy, &observation, &payload, allowlisted, strong);
        let history = state.history.duplicate();
        self.devices.put(state);
        proof {
            assert(self@.devices =~= t.devices.insert(identity@.key, state_step(before, t.policy, observation, payload@, allowlisted).0));
        }
        let ghost mid = self@;
        if let Some(f) = self.flood_finding(now) {
            findings.push(f);
        }
        let r = ObservationResult { identity, payload_hash: payload, history, findings };
        proof {
            let flood = flood_due(mid.recent, mid.last_flood_at_ms, now, mid.policy);
            let base = state_step(before, t.policy, observation, payload@, allowlisted).1;
            if flood {
                assert(finding_views(r.findings@) =~= base.push(flood_spec(distinct_identities(mid.recent), now, t.policy.flood_window_ms)));
            } else {
                assert(finding_views(r.findings@) =~= base);
            }
        }
        r
    }

    /// Evaluates the time-based rules at `now_ms`: every expected identity
    /// that was seen before and has been missing for the disappearance time
    /// is reported once, until it is seen again.
    pub fn evaluate(&mut self, now_ms: u64) -> (r: Vec<Finding>)
        ensures
            final(self)@ == (TrackerView {
                devices: evaluate_keys(old(self)@.devices, old(self)@.policy.expected_identity_keys, old(self)@.policy, now_ms).0,
                ..old(self)@
            }),
            finding_views(r@) == evaluate_keys(old(self)@.devices, old(self)@.policy.expected_identity_keys, old(self)@.policy, now_ms).1,
    {
        let ghost t = self@;
        let ghost keys = t.policy.expected_identity_keys;
        let mut findings: Vec<Finding> = Vec::new();
        let n = self.policy.expected_identity_keys.len();
        let mut i: usize = 0;
        proof {
            assert(keys.take(0) =~= Seq::<Seq<char>>::empty());
            assert(finding_views(findings@) =~= Seq::<FindingView>::empty());
        }
        while i < n
            invariant
                n == keys.len(),
                keys == self@.policy.expected_identity_keys,
                i <= n,
                self@.policy == t.policy,
                self@.recent == t.recent,
                self@.last_flood_at_ms == t.last_flood_at_ms,
                (self@.devices, finding_views(findings@)) == evaluate_keys(t.devices, keys.take(i as int), t.policy, now_ms),
            decreases n - i,
        {
            proof {
                assert(keys.take(i + 1).drop_last() =~= keys.take(i as int));
            }
            let key = &self.policy.expected_identity_keys[i];
            let ghost k = key@;
            assert(k == keys[i as int]);
            match self.devices.take(key.as_str()) {
                None => {},
                Some(mut state) => {
                    let last_seen = state.history.last_seen_ms;
                    if !state.disappearance_reported
                        && now_ms.saturating_sub(last_seen) >= self.policy.disappearance_ms {
                        let ghost before = state@;
                        state.disappearance_reported = true;
                        let f = disappearance(key, last_seen, now_ms);
                        findings.push(f);
                        self.devices.put(state);
                        proof {
                            assert(state@ == (StateView { disappearance_reported: true, ..before }));
                            assert(self@.devices =~= evaluate_keys(t.devices, keys.take(i + 1), t.policy, now_ms).0);
                            assert(finding_views(findings@) =~= evaluate_keys(t.devices, keys.take(i + 1), t.policy, now_ms).1);
                        }
                    } else {
                        self.devices.put(state);
                        proof {
                            assert(self@.devices =~= evaluate_keys(t.devices, keys.take(i + 1), t.policy, now_ms).0);
                        }
                    }
                },
            }
            i = i + 1;
        }
        proof {
            assert(keys.take(n as int) =~= keys);
        }
        findings
    }
}

fn disappearance(key: &String, last_seen: u64, now_ms: u64) -> (f: Finding)
    ensures
        f@ == disappearance_spec(key@, last_seen, now_ms),
{
    let mut evidence = "last_seen_ms=".to_owned();
    push_decimal(&mut evidence, last_seen);
    evidence.append(", missing_for_ms=");
    push_decimal(&mut evidence, now_ms.saturating_sub(last_seen));
    let f = Finding {
        kind: RiskKind::Disappeared,
        severity: RiskSeverity::Warning,
        identity_key: Some(key.clone()),
        observed_at_ms: now_ms,
        summary: "Expected BLE device is no longer observed".to_owned(),
        evidence: one_string(evidence),
        limitations: one_string("Radio obstruction, scan gaps and device sleep can also explain absence".to_owned()),
    };
    assert(f@.evidence =~= disappearance_spec(key@, last_seen, now_ms).evidence);
    assert(f@.limitations =~= disappearance_spec(key@, last_seen, now_ms).limitations);
    f
}

} // verus!
