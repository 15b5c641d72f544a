//! Properties of identification and tracking that hold for every input.

use vstd::prelude::*;
use vstd::utf8::encode_utf8;

use crate::ble::fingerprint::{
    eddystone_bytes, first_eddystone_uid, first_ibeacon, fnv1a64_spec, ibeacon_bytes, identify_spec, identity_key,
    is_eddystone_uid, le_bytes, local_name_bytes, manufacturer_bytes, normalized_uuid, payload_bytes, payload_hash_spec, service_data_bytes, text_bytes,
};
use crate::ble::model::{
    opt_chars, strs, supports_clone, Advertisement, AddressType, IdentityConfidence,
    ManufacturerData, Observation, RiskKind, ServiceData,
};
use crate::ble::model::{RiskSeverity, TrackerPolicyView};
use crate::ble::tracker::{
    distinct_identities, clone_choice, clone_eligible, clone_finding_spec, clone_step, disappeared, evaluate_keys,
    first_eligible, fresh_state, keyed_by_identity, ordered_pair,
    sessions_after, state_step, tracker_observe, StateView, TrackerView,
};
use crate::text::{decimal, hex_fixed, is_lower_hex, str_leq, lemma_hex_fixed_shape, lemma_str_order_total, str_order};

verus! {

/// Two advertisements that carry the same protocol data but come from
/// different addresses (a rotating private address, for instance).
pub open spec fn same_protocol_data(a: Advertisement, b: Advertisement) -> bool {
    &&& opt_chars(a.protocol_identity) == opt_chars(b.protocol_identity)
    &&& a.manufacturer_data@ == b.manufacturer_data@
    &&& a.service_data@ == b.service_data@
}

/// Whether an advertisement carries an identity of its own, beyond its address.
pub open spec fn has_protocol_identity(a: Advertisement) -> bool {
    a.protocol_identity is Some || ibeacon_bytes(a) is Some || eddystone_bytes(a) is Some
}

/// An identity key is an opaque fingerprint: the prefix `ble-id-v1:` and
/// sixteen lower-case hexadecimal digits, whatever the advertisement carries,
/// so neither a caller-supplied identity nor an address is kept in the clear.
pub proof fn lemma_identity_key_is_a_fingerprint(a: Advertisement)
    ensures
        identify_spec(a).key.len() == 26,
        identify_spec(a).key.subrange(0, 10) == "ble-id-v1:"@,
        forall|i: int| 10 <= i < 26 ==> is_lower_hex(#[trigger] identify_spec(a).key[i]),
{
    reveal_strlit("ble-id-v1:");
    let key = identify_spec(a).key;
    let b: Seq<u8> = match a.protocol_identity {
        Some(v) => encode_utf8(v@),
        None => match ibeacon_bytes(a) {
            Some(x) => x,
            None => match eddystone_bytes(a) {
                Some(x) => x,
                None => encode_utf8(a.address@),
            },
        },
    };
    assert(key == identity_key(b));
    let digits = hex_fixed(fnv1a64_spec(b) as nat, 16);
    lemma_hex_fixed_shape(fnv1a64_spec(b) as nat, 16);
    assert(key.subrange(0, 10) =~= "ble-id-v1:"@);
    assert forall|i: int| 10 <= i < 26 implies is_lower_hex(#[trigger] key[i]) by {
        assert(key[i] == digits[i - 10]);
    }
}

/// A decoded protocol identity survives address rotation: advertisements with
/// the same protocol data get the same identity whatever their addresses.
pub proof fn lemma_identity_survives_address_rotation(a: Advertisement, b: Advertisement)
    requires
        same_protocol_data(a, b),
        has_protocol_identity(a),
    ensures
        identify_spec(a) == identify_spec(b),
{
    assert(ibeacon_bytes(a) == ibeacon_bytes(b));
    assert(eddystone_bytes(a) == eddystone_bytes(b));
}

/// Without a decoded identity, an advertisement from a resolvable or
/// non-resolvable private (or unknown) address has an ephemeral identity,
/// and one from a public or random static address a static one; only
/// decoded and caller-supplied identities support clone evidence.
pub proof fn lemma_address_identity_confidence(a: Advertisement)
    ensures
        !has_protocol_identity(a) ==> identify_spec(a).confidence == (match a.address_type {
            AddressType::Public | AddressType::RandomStatic => IdentityConfidence::StaticAddress,
            _ => IdentityConfidence::EphemeralAddress,
        }),
        supports_clone(identify_spec(a).confidence) <==> has_protocol_identity(a),
{
}

/// The payload hash depends on the local name, the set of service UUIDs
/// (not their order), the manufacturer data and the service data only: not
/// on the address, the address type or the signal strength.
pub proof fn lemma_payload_hash_ignores_address_and_service_order(a: Advertisement, b: Advertisement)
    requires
        opt_chars(a.local_name) == opt_chars(b.local_name),
        strs(a.service_uuids@).to_multiset() == strs(b.service_uuids@).to_multiset(),
        a.manufacturer_data@ == b.manufacturer_data@,
        a.service_data@ == b.service_data@,
    ensures
        payload_hash_spec(a) == payload_hash_spec(b),
{
    lemma_str_order_total();
    let sa = strs(a.service_uuids@);
    let sb = strs(b.service_uuids@);
    sa.lemma_sort_by_ensures(str_order());
    sb.lemma_sort_by_ensures(str_order());
    vstd::seq_lib::lemma_sorted_unique(sa.sort_by(str_order()), sb.sort_by(str_order()), str_order());
    assert(payload_bytes(a) == payload_bytes(b));
}

/// An allowlisted identity never produces a persistence or co-travel finding.
pub proof fn lemma_allowlist_suppresses_unknown_findings(t: TrackerView, obs: Observation)
    requires
        t.policy.allowlisted_identity_keys.contains(identify_spec(obs.advertisement).key),
    ensures
        forall|i: int|
            0 <= i < tracker_observe(t, obs).1.findings.len() ==> {
                let k = #[trigger] tracker_observe(t, obs).1.findings[i].kind;
                k != RiskKind::PersistentUnknown && k != RiskKind::CoTravel
            },
{
}

/// The findings of one step of one identity: persistence only after the
/// configured dwell and co-travel only after the configured number of moving
/// sessions, each only for an identity not allowlisted and not reported
/// before (the flag is then set); clone evidence only for a strong identity,
/// for a pair of sensors not reported before (which is then remembered).
proof fn lemma_state_step_findings(
    st: StateView,
    policy: TrackerPolicyView,
    obs: Observation,
    payload: Seq<char>,
    allowlisted: bool,
)
    ensures
        ({
            let (st2, f) = state_step(st, policy, obs, payload, allowlisted);
            forall|i: int|
                0 <= i < f.len() ==> {
                    &&& #[trigger] f[i].kind == RiskKind::PersistentUnknown ==> {
                        &&& !allowlisted
                        &&& obs.monotonic_ms.saturating_sub(st.history.first_seen_ms) >= policy.persistent_unknown_ms
                        &&& !st.persistent_reported
                        &&& st2.persistent_reported
                    }
                    &&& f[i].kind == RiskKind::CoTravel ==> {
                        &&& !allowlisted
                        &&& st2.movement_sessions.len() >= policy.co_travel_min_sessions
                        &&& !st.co_travel_reported
                        &&& st2.co_travel_reported
                    }
                    &&& f[i].kind == RiskKind::PossibleClone ==> {
                        &&& supports_clone(st.history.identity.confidence)
                        &&& supports_clone(identify_spec(obs.advertisement).confidence)
                        &&& obs.context.zone is Some
                        &&& exists|p: Seq<char>| !st.clone_pairs.contains(p) && st2.clone_pairs == st.clone_pairs.insert(p)
                    }
                    &&& f[i].kind != RiskKind::BeaconFlood && f[i].kind != RiskKind::Disappeared
                }
        }),
{
    let (st2, f) = state_step(st, policy, obs, payload, allowlisted);
    let c = clone_choice(st, policy, obs);
    if c is Some {
        let k = c->0;
        assert(clone_eligible(st, policy, obs, k));
        let p = ordered_pair(k, obs.context.sensor_id@);
        assert(!st.clone_pairs.contains(p) && st2.clone_pairs == st.clone_pairs.insert(p));
    }
}

/// Persistence is reported only once the identity has stayed for the
/// configured time, co-travel only once it has been seen in the configured
/// number of moving sessions, each at most once per identity and never for an
/// allowlisted one; clone evidence only when both the identity recorded under
/// the key and the one decoded from this advertisement are protocol or
/// caller-supplied identities, seen before in another zone, once per pair of
/// sensors.
pub proof fn lemma_evidence_thresholds(t: TrackerView, obs: Observation)
    requires
        keyed_by_identity(t.devices),
    ensures
        ({
            let (t2, r) = tracker_observe(t, obs);
            let key = r.identity.key;
            let allowlisted = t.policy.allowlisted_identity_keys.contains(key);
            forall|i: int|
                0 <= i < r.findings.len() ==> {
                    &&& #[trigger] r.findings[i].kind == RiskKind::PersistentUnknown ==> {
                        &&& !allowlisted
                        &&& obs.monotonic_ms.saturating_sub(r.history.first_seen_ms) >= t.policy.persistent_unknown_ms
                        &&& !(t.devices.dom().contains(key) && t.devices[key].persistent_reported)
                        &&& t2.devices[key].persistent_reported
                    }
                    &&& r.findings[i].kind == RiskKind::CoTravel ==> {
                        &&& !allowlisted
                        &&& t2.devices[key].movement_sessions.len() >= t.policy.co_travel_min_sessions
                        &&& !(t.devices.dom().contains(key) && t.devices[key].co_travel_reported)
                        &&& t2.devices[key].co_travel_reported
                    }
                    &&& r.findings[i].kind == RiskKind::PossibleClone ==> {
                        &&& supports_clone(r.history.identity.confidence)
                        &&& supports_clone(r.identity.confidence)
                        &&& obs.context.zone is Some
                        &&& t.devices.dom().contains(key)
                        &&& exists|p: Seq<char>|
                            !t.devices[key].clone_pairs.contains(p) && t2.devices[key].clone_pairs
                                == t.devices[key].clone_pairs.insert(p)
                    }
                }
        }),
{
    let identity = identify_spec(obs.advertisement);
    let payload = payload_hash_spec(obs.advertisement);
    let key = identity.key;
    let now = obs.monotonic_ms;
    let allowlisted = t.policy.allowlisted_identity_keys.contains(key);
    let st = if t.devices.dom().contains(key) {
        t.devices[key]
    } else {
        fresh_state(identity, now, payload, obs.advertisement.rssi_dbm)
    };
    lemma_state_step_findings(st, t.policy, obs, payload, allowlisted);
    if !t.devices.dom().contains(key) {
        assert(!exists|k: Seq<char>| clone_eligible(st, t.policy, obs, k));
    }
}

/// Every disappearance report names an expected identity that was seen
/// before, was not reported yet and has been missing for the configured
/// time; evaluation only marks identities as reported, and a mark, once set,
/// stays until the identity is observed again: no identity is reported twice.
pub proof fn lemma_disappearance_reported_once(
    devices: Map<Seq<char>, StateView>,
    keys: Seq<Seq<char>>,
    policy: TrackerPolicyView,
    now: u64,
)
    ensures
        ({
            let (d2, f) = evaluate_keys(devices, keys, policy, now);
            &&& d2.dom() == devices.dom()
            &&& forall|k: Seq<char>| #[trigger] devices.dom().contains(k) ==> {
                ||| d2[k] == devices[k]
                ||| (keys.contains(k) && !devices[k].disappearance_reported
                    && d2[k] == (StateView { disappearance_reported: true, ..devices[k] }))
            }
            &&& forall|i: int|
                0 <= i < f.len() ==> {
                    &&& #[trigger] f[i].kind == RiskKind::Disappeared
                    &&& f[i].identity_key is Some
                    &&& keys.contains(f[i].identity_key->0)
                    &&& devices.dom().contains(f[i].identity_key->0)
                    &&& !devices[f[i].identity_key->0].disappearance_reported
                    &&& d2[f[i].identity_key->0].disappearance_reported
                    &&& now.saturating_sub(devices[f[i].identity_key->0].history.last_seen_ms) >= policy.disappearance_ms
                }
            &&& forall|i: int, j: int|
                0 <= i < j < f.len() ==> #[trigger] f[i].identity_key != #[trigger] f[j].identity_key
        }),
    decreases keys.len(),
{
    if keys.len() == 0 {
        return;
    }
    let rest = keys.drop_last();
    lemma_disappearance_reported_once(devices, rest, policy, now);
    let (d, f) = evaluate_keys(devices, rest, policy, now);
    let k = keys.last();
    assert forall|x: Seq<char>| rest.contains(x) implies keys.contains(x) by {
        let j = choose|j: int| 0 <= j < rest.len() && rest[j] == x;
        assert(keys[j] == x);
    }
    assert(keys.contains(k)) by {
        assert(keys[keys.len() - 1] == k);
    }
    if crate::ble::tracker::disappeared(d, k, policy, now) {
        let (d2, f2) = evaluate_keys(devices, keys, policy, now);
        let marked = StateView { disappearance_reported: true, ..d[k] };
        assert(d2 == d.insert(k, marked));
        assert(f2 == f.push(crate::ble::tracker::disappearance_spec(k, d[k].history.last_seen_ms, now)));
        assert(devices.dom().contains(k));
        assert(d[k] == devices[k]);
        assert(d2.dom() =~= devices.dom());
        assert forall|i: int| 0 <= i < f.len() implies f[i].identity_key != Some(k) by {
            assert(f[i].kind == RiskKind::Disappeared);
        }
        assert forall|i: int| 0 <= i < f2.len() implies {
            &&& #[trigger] f2[i].kind == RiskKind::Disappeared
            &&& f2[i].identity_key is Some
            &&& keys.contains(f2[i].identity_key->0)
            &&& devices.dom().contains(f2[i].identity_key->0)
            &&& !devices[f2[i].identity_key->0].disappearance_reported
            &&& d2[f2[i].identity_key->0].disappearance_reported
            &&& now.saturating_sub(devices[f2[i].identity_key->0].history.last_seen_ms) >= policy.disappearance_ms
        } by {
            if i < f.len() {
                assert(f2[i] == f[i]);
                assert(f[i].kind == RiskKind::Disappeared);
            }
        }
        assert forall|a: int, b: int| 0 <= a < b < f2.len() implies #[trigger] f2[a].identity_key != #[trigger] f2[b].identity_key by {
            if b < f.len() {
                assert(f2[a] == f[a] && f2[b] == f[b]);
            } else {
                assert(f2[a] == f[a]);
            }
        }
    }
}

/// Observing an identity clears its disappearance mark and keeps its first
/// sighting: the history records the latest sighting, counts it (saturating),
/// keeps the strongest and weakest signal in order, and lists the sensor.
pub proof fn lemma_observation_updates_history(t: TrackerView, obs: Observation)
    requires
        keyed_by_identity(t.devices),
        forall|k: Seq<char>| #[trigger] t.devices.dom().contains(k) ==>
            t.devices[k].history.rssi_min_dbm <= t.devices[k].history.rssi_max_dbm,
    ensures
        ({
            let (t2, r) = tracker_observe(t, obs);
            let key = r.identity.key;
            let st2 = t2.devices[key];
            &&& keyed_by_identity(t2.devices)
            &&& t2.devices.dom() == t.devices.dom().insert(key)
            &&& !st2.disappearance_reported
            &&& st2.history == r.history
            &&& r.history.identity.key == key
            &&& r.history.last_seen_ms == obs.monotonic_ms
            &&& r.history.first_seen_ms == (if t.devices.dom().contains(key) {
                t.devices[key].history.first_seen_ms
            } else {
                obs.monotonic_ms
            })
            &&& r.history.observation_count == (if t.devices.dom().contains(key) {
                t.devices[key].history.observation_count
            } else {
                0
            }).saturating_add(1)
            &&& r.history.rssi_min_dbm <= obs.advertisement.rssi_dbm <= r.history.rssi_max_dbm
            &&& st2.sensors.dom().contains(obs.context.sensor_id@)
            &&& st2.sensors[obs.context.sensor_id@].at_ms == obs.monotonic_ms
            &&& forall|k: Seq<char>| #[trigger] t.devices.dom().contains(k) && k != key ==> t2.devices[k] == t.devices[k]
            &&& forall|k: Seq<char>| #[trigger] t2.devices.dom().contains(k) ==>
                t2.devices[k].history.rssi_min_dbm <= t2.devices[k].history.rssi_max_dbm
        }),
{
    let (t2, r) = tracker_observe(t, obs);
    let key = r.identity.key;
    assert(t2.devices.dom() =~= t.devices.dom().insert(key));
}

/// A beacon flood is reported only when the sightings still inside the
/// window hold at least the configured number of distinct identities, and
/// not again within one window of the previous report.
pub proof fn lemma_flood_rate_limited(t: TrackerView, obs: Observation)
    ensures
        ({
            let (t2, r) = tracker_observe(t, obs);
            let now = obs.monotonic_ms;
            &&& (t.last_flood_at_ms matches Some(l) && now.saturating_sub(l) <= t.policy.flood_window_ms) ==> {
                &&& t2.last_flood_at_ms == t.last_flood_at_ms
                &&& forall|i: int| 0 <= i < r.findings.len() ==> #[trigger] r.findings[i].kind != RiskKind::BeaconFlood
            }
            &&& forall|i: int|
                0 <= i < r.findings.len() && #[trigger] r.findings[i].kind == RiskKind::BeaconFlood ==> {
                    &&& distinct_identities(t2.recent) >= t.policy.flood_unique_identities
                    &&& t2.last_flood_at_ms == Some(now)
                    &&& i == r.findings.len() - 1
                }
            &&& forall|i: int| 0 <= i < t2.recent.len() ==>
                now.saturating_sub((#[trigger] t2.recent[i]).0) <= t.policy.flood_window_ms || i < t2.recent.len() - 1
        }),
{
    let identity = identify_spec(obs.advertisement);
    let payload = payload_hash_spec(obs.advertisement);
    let key = identity.key;
    let now = obs.monotonic_ms;
    let allowlisted = t.policy.allowlisted_identity_keys.contains(key);
    let st = if t.devices.dom().contains(key) {
        t.devices[key]
    } else {
        fresh_state(identity, now, payload, obs.advertisement.rssi_dbm)
    };
    lemma_state_step_findings(st, t.policy, obs, payload, allowlisted);
}

/// The state under which an observation is counted: the one filed under the
/// observed identity's key, or a fresh one for an identity not seen before.
pub open spec fn observed_state(t: TrackerView, obs: Observation) -> StateView {
    let identity = identify_spec(obs.advertisement);
    if t.devices.dom().contains(identity.key) {
        t.devices[identity.key]
    } else {
        fresh_state(identity, obs.monotonic_ms, payload_hash_spec(obs.advertisement), obs.advertisement.rssi_dbm)
    }
}

/// The pair of sensors that one observation reports as clone evidence, with
/// the identity key it is filed under, if it reports any.
pub open spec fn clone_report(t: TrackerView, obs: Observation) -> Option<(Seq<char>, Seq<char>)> {
    match clone_choice(observed_state(t, obs), t.policy, obs) {
        Some(k) => Some((identify_spec(obs.advertisement).key, ordered_pair(k, obs.context.sensor_id@))),
        None => None,
    }
}

/// The clone reports of a run of observations, in order.
pub open spec fn clone_reports(t: TrackerView, run: Seq<Observation>) -> Seq<(Seq<char>, Seq<char>)>
    decreases run.len(),
{
    if run.len() == 0 {
        seq![]
    } else {
        let head = match clone_report(t, run[0]) {
            Some(p) => seq![p],
            None => seq![],
        };
        head + clone_reports(tracker_observe(t, run[0]).0, run.drop_first())
    }
}

/// Whether the tracker has recorded a sensor pair as reported for a key.
pub open spec fn pair_recorded(t: TrackerView, report: (Seq<char>, Seq<char>)) -> bool {
    t.devices.dom().contains(report.0) && t.devices[report.0].clone_pairs.contains(report.1)
}

/// One observation returns exactly one clone finding when it makes a clone
/// report and none otherwise; the reported pair was not recorded before and
/// is recorded after, recorded pairs stay recorded, and the tracker stays
/// keyed by identity.
pub proof fn lemma_clone_report_step(t: TrackerView, obs: Observation)
    requires
        keyed_by_identity(t.devices),
    ensures
        ({
            let (t2, r) = tracker_observe(t, obs);
            &&& keyed_by_identity(t2.devices)
            &&& (clone_report(t, obs) is Some <==> exists|i: int|
                0 <= i < r.findings.len() && #[trigger] r.findings[i].kind == RiskKind::PossibleClone)
            &&& forall|i: int, j: int|
                0 <= i < r.findings.len() && 0 <= j < r.findings.len() && #[trigger] r.findings[i].kind
                    == RiskKind::PossibleClone && #[trigger] r.findings[j].kind == RiskKind::PossibleClone ==> i == j
            &&& (clone_report(t, obs) matches Some(p) ==> !pair_recorded(t, p) && pair_recorded(t2, p))
            &&& forall|p: (Seq<char>, Seq<char>)| #[trigger] pair_recorded(t, p) ==> pair_recorded(t2, p)
        }),
{
    let identity = identify_spec(obs.advertisement);
    let payload = payload_hash_spec(obs.advertisement);
    let key = identity.key;
    let allowlisted = t.policy.allowlisted_identity_keys.contains(key);
    let st = observed_state(t, obs);
    let (t2, r) = tracker_observe(t, obs);
    let (st2, f) = state_step(st, t.policy, obs, payload, allowlisted);
    assert(t2.devices == t.devices.insert(key, st2));
    assert(st.history.identity.key == key);
    assert(keyed_by_identity(t2.devices)) by {
        assert forall|k: Seq<char>| #[trigger] t2.devices.dom().contains(k) implies t2.devices[k].history.identity.key == k by {
            if k != key {
                assert(t.devices.dom().contains(k));
            }
        }
    }
    if !t.devices.dom().contains(key) {
        assert(!exists|k: Seq<char>| clone_eligible(st, t.policy, obs, k));
    }
    lemma_state_step_findings(st, t.policy, obs, payload, allowlisted);
    let c = clone_choice(st, t.policy, obs);
    let persist_part = f.subrange(clone_step(st, t.policy, obs).1.len() as int, f.len() as int);
    assert forall|i: int| 0 <= i < r.findings.len() && #[trigger] r.findings[i].kind == RiskKind::PossibleClone
        implies c is Some && i == 0 by {
        if i >= f.len() {
            assert(r.findings[i].kind == RiskKind::BeaconFlood);
        } else {
            assert(r.findings[i] == f[i]);
            if c is None || i > 0 {
                let cf = clone_step(st, t.policy, obs).1;
                assert(f[i].kind == RiskKind::PersistentUnknown || f[i].kind == RiskKind::CoTravel);
            }
        }
    }
    if c is Some {
        let k = c->0;
        assert(clone_eligible(st, t.policy, obs, k));
        assert(f[0] == clone_finding_spec(st, obs, k));
        assert(r.findings[0] == f[0]);
        assert(r.findings[0].kind == RiskKind::PossibleClone);
        assert(t.devices.dom().contains(key));
        assert(st2.clone_pairs == st.clone_pairs.insert(ordered_pair(k, obs.context.sensor_id@)));
    }
    assert forall|p: (Seq<char>, Seq<char>)| #[trigger] pair_recorded(t, p) implies pair_recorded(t2, p) by {
        if p.0 == key {
            assert(st == t.devices[key]);
        }
    }
}

/// Clone evidence names each pair of sensors at most once per identity,
/// however long the run and however often the two sensors keep seeing the
/// identity in different zones.
pub proof fn lemma_clone_pair_reported_once(t: TrackerView, run: Seq<Observation>)
    requires
        keyed_by_identity(t.devices),
    ensures
        clone_reports(t, run).no_duplicates(),
        forall|i: int| 0 <= i < clone_reports(t, run).len() ==> !pair_recorded(t, #[trigger] clone_reports(t, run)[i]),
    decreases run.len(),
{
    if run.len() > 0 {
        let obs = run[0];
        let t2 = tracker_observe(t, obs).0;
        lemma_clone_report_step(t, obs);
        lemma_clone_pair_reported_once(t2, run.drop_first());
        let rest = clone_reports(t2, run.drop_first());
        let all = clone_reports(t, run);
        match clone_report(t, obs) {
            Some(h) => {
                assert(all =~= seq![h] + rest);
                assert forall|i: int| 0 <= i < all.len() implies !pair_recorded(t, #[trigger] all[i]) by {
                    if i > 0 {
                        assert(all[i] == rest[i - 1]);
                        assert(!pair_recorded(t2, rest[i - 1]));
                    }
                }
                assert forall|i: int, j: int| 0 <= i < all.len() && 0 <= j < all.len() && i != j implies all[i] != all[j] by {
                    if i > 0 && j > 0 {
                        assert(all[i] == rest[i - 1] && all[j] == rest[j - 1]);
                    } else if i == 0 {
                        assert(all[j] == rest[j - 1]);
                        assert(!pair_recorded(t2, rest[j - 1]));
                    } else {
                        assert(all[i] == rest[i - 1]);
                        assert(!pair_recorded(t2, rest[i - 1]));
                    }
                }
            },
            None => {
                assert(all =~= rest);
                assert forall|i: int| 0 <= i < all.len() implies !pair_recorded(t, #[trigger] all[i]) by {
                    assert(!pair_recorded(t2, rest[i]));
                }
            },
        }
    }
}

/// Clone evidence always rests on an earlier sighting of the same identity
/// by another sensor, in another zone, at most the clone window away in
/// time from this observation (before or after it).
pub proof fn lemma_clone_needs_recent_sighting_elsewhere(t: TrackerView, obs: Observation)
    requires
        keyed_by_identity(t.devices),
    ensures
        ({
            let r = tracker_observe(t, obs).1;
            let key = identify_spec(obs.advertisement).key;
            (exists|i: int| 0 <= i < r.findings.len() && #[trigger] r.findings[i].kind == RiskKind::PossibleClone) ==> {
                &&& t.devices.dom().contains(key)
                &&& exists|k: Seq<char>|
                    #[trigger] t.devices[key].sensors.dom().contains(k) && {
                        let seen = t.devices[key].sensors[k];
                        &&& k != obs.context.sensor_id@
                        &&& seen.zone is Some
                        &&& obs.context.zone is Some
                        &&& seen.zone->0 != obs.context.zone->0@
                        &&& obs.monotonic_ms <= seen.at_ms + t.policy.clone_window_ms
                        &&& seen.at_ms <= obs.monotonic_ms + t.policy.clone_window_ms
                    }
            }
        }),
{
    lemma_clone_report_step(t, obs);
    let r = tracker_observe(t, obs).1;
    let key = identify_spec(obs.advertisement).key;
    if exists|i: int| 0 <= i < r.findings.len() && #[trigger] r.findings[i].kind == RiskKind::PossibleClone {
        let st = observed_state(t, obs);
        let c = clone_choice(st, t.policy, obs);
        assert(clone_report(t, obs) is Some);
        assert(c is Some);
        let k = c->0;
        assert(first_eligible(st, t.policy, obs, k));
        assert(clone_eligible(st, t.policy, obs, k));
        if !t.devices.dom().contains(key) {
            assert(st.sensors =~= Map::<Seq<char>, crate::ble::tracker::SensorSeenView>::empty());
        }
        assert(st == t.devices[key]);
        assert(t.devices[key].sensors.dom().contains(k));
    }
}

/// An advertisement without a caller identity whose first iBeacon item
/// (Apple company id, type 0x02, length 0x15, at least 23 bytes) carries
/// `data` is identified by the fingerprint of its UUID, major and minor,
/// `data[2..22]`, with protocol confidence.
pub proof fn lemma_ibeacon_identity_key(a: Advertisement, i: int)
    requires
        a.protocol_identity is None,
        0 <= i < a.manufacturer_data@.len(),
        ({
            let m = a.manufacturer_data@[i];
            m.company_id == 0x004c && m.data@.len() >= 23 && m.data@[0] == 0x02 && m.data@[1] == 0x15
        }),
        forall|j: int|
            0 <= j < i ==> !({
                let m = #[trigger] a.manufacturer_data@[j];
                m.company_id == 0x004c && m.data@.len() >= 23 && m.data@[0] == 0x02 && m.data@[1] == 0x15
            }),
    ensures
        identify_spec(a).key == "ble-id-v1:"@ + hex_fixed(
            fnv1a64_spec(a.manufacturer_data@[i].data@.subrange(2, 22)) as nat,
            16,
        ),
        identify_spec(a).confidence == IdentityConfidence::Protocol,
{
    lemma_first_ibeacon(a.manufacturer_data@, 0, i);
}

proof fn lemma_first_ibeacon(s: Seq<ManufacturerData>, from: int, i: int)
    requires
        0 <= from <= i < s.len(),
        ({
            let m = s[i];
            m.company_id == 0x004c && m.data@.len() >= 23 && m.data@[0] == 0x02 && m.data@[1] == 0x15
        }),
        forall|j: int|
            from <= j < i ==> !({
                let m = #[trigger] s[j];
                m.company_id == 0x004c && m.data@.len() >= 23 && m.data@[0] == 0x02 && m.data@[1] == 0x15
            }),
    ensures
        first_ibeacon(s, from) == Some(i),
    decreases i - from,
{
    if from < i {
        lemma_first_ibeacon(s, from + 1, i);
    }
}

/// An advertisement without a caller identity or an iBeacon item, whose
/// first Eddystone-UID item carries `data`, is identified by the fingerprint
/// of its namespace and instance, `data[2..18]`, with protocol confidence.
pub proof fn lemma_eddystone_identity_key(a: Advertisement, i: int)
    requires
        a.protocol_identity is None,
        ibeacon_bytes(a) is None,
        0 <= i < a.service_data@.len(),
        is_eddystone_uid(a.service_data@[i]),
        forall|j: int| 0 <= j < i ==> !is_eddystone_uid(#[trigger] a.service_data@[j]),
    ensures
        identify_spec(a).key == "ble-id-v1:"@ + hex_fixed(fnv1a64_spec(a.service_data@[i].data@.subrange(2, 18)) as nat, 16),
        identify_spec(a).confidence == IdentityConfidence::Protocol,
{
    lemma_first_eddystone(a.service_data@, 0, i);
}

proof fn lemma_first_eddystone(s: Seq<ServiceData>, from: int, i: int)
    requires
        0 <= from <= i < s.len(),
        is_eddystone_uid(s[i]),
        forall|j: int| from <= j < i ==> !is_eddystone_uid(#[trigger] s[j]),
    ensures
        first_eddystone_uid(s, from) == Some(i),
    decreases i - from,
{
    if from < i {
        lemma_first_eddystone(s, from + 1, i);
    }
}

/// Evaluation leaves untouched every identity it does not look at, and
/// keeps the set of identities and their histories.
proof fn lemma_evaluate_keeps(devices: Map<Seq<char>, StateView>, keys: Seq<Seq<char>>, policy: TrackerPolicyView, now: u64)
    ensures
        evaluate_keys(devices, keys, policy, now).0.dom() == devices.dom(),
        forall|k: Seq<char>| !keys.contains(k) && devices.dom().contains(k) ==> #[trigger] evaluate_keys(devices, keys, policy, now).0[k] == devices[k],
    decreases keys.len(),
{
    if keys.len() > 0 {
        let rest = keys.drop_last();
        lemma_evaluate_keeps(devices, rest, policy, now);
        let d = evaluate_keys(devices, rest, policy, now).0;
        assert forall|k: Seq<char>| !keys.contains(k) && devices.dom().contains(k) implies #[trigger] evaluate_keys(devices, keys, policy, now).0[k] == devices[k] by {
            assert(k != keys.last());
            if rest.contains(k) {
                let j = choose|j: int| 0 <= j < rest.len() && rest[j] == k;
                assert(keys[j] == k);
            }
        }
        if disappeared(d, keys.last(), policy, now) {
            assert(evaluate_keys(devices, keys, policy, now).0.dom() =~= devices.dom());
        }
    }
}

/// Whether a finding reports identity `k` as gone at `now`, last seen at
/// `last_seen`: a warning, dated now, naming the identity and saying when it
/// was last seen and for how long it has been missing.
pub open spec fn reports_gone(f: crate::ble::model::FindingView, k: Seq<char>, last_seen: u64, now: u64) -> bool {
    &&& f.kind == RiskKind::Disappeared
    &&& f.severity == RiskSeverity::Warning
    &&& f.identity_key == Some(k)
    &&& f.observed_at_ms == now
    &&& f.evidence == seq![
        "last_seen_ms="@ + decimal(last_seen as nat) + ", missing_for_ms="@ + decimal((now - last_seen) as nat),
    ]
}

/// Evaluation reports every expected identity that is tracked, not yet
/// reported as gone, and missing for at least the disappearance time,
/// whatever else was reported about it before.
pub proof fn lemma_evaluate_reports_every_missing_device(
    devices: Map<Seq<char>, StateView>,
    keys: Seq<Seq<char>>,
    policy: TrackerPolicyView,
    now: u64,
)
    ensures
        forall|k: Seq<char>|
            #[trigger] keys.contains(k) && devices.dom().contains(k) && !devices[k].disappearance_reported
                && now >= devices[k].history.last_seen_ms + policy.disappearance_ms ==> exists|i: int|
                0 <= i < evaluate_keys(devices, keys, policy, now).1.len() && #[trigger] reports_gone(
                    evaluate_keys(devices, keys, policy, now).1[i],
                    k,
                    devices[k].history.last_seen_ms,
                    now,
                ),
    decreases keys.len(),
{
    if keys.len() > 0 {
        let rest = keys.drop_last();
        lemma_evaluate_reports_every_missing_device(devices, rest, policy, now);
        lemma_evaluate_keeps(devices, rest, policy, now);
        let (d, f) = evaluate_keys(devices, rest, policy, now);
        let all = evaluate_keys(devices, keys, policy, now).1;
        assert forall|k: Seq<char>|
            #[trigger] keys.contains(k) && devices.dom().contains(k) && !devices[k].disappearance_reported
                && now >= devices[k].history.last_seen_ms + policy.disappearance_ms implies exists|i: int|
                0 <= i < all.len() && #[trigger] reports_gone(all[i], k, devices[k].history.last_seen_ms, now) by {
            if rest.contains(k) {
                let i = choose|i: int|
                    0 <= i < f.len() && #[trigger] reports_gone(f[i], k, devices[k].history.last_seen_ms, now);
                assert(all[i] == f[i]);
            } else {
                let j = choose|j: int| 0 <= j < keys.len() && keys[j] == k;
                if j < keys.len() - 1 {
                    assert(rest[j] == k);
                }
                assert(k == keys.last());
                assert(d[k] == devices[k]);
                assert(disappeared(d, k, policy, now));
                assert(reports_gone(all[f.len() as int], k, devices[k].history.last_seen_ms, now));
            }
        }
    }
}

/// The hashed payload bytes end with the service data: for two
/// advertisements that agree on the local name, the service UUIDs and the
/// manufacturer data, the hashed bytes are one common prefix followed by
/// each one's service-data encoding, so advertisements whose service data
/// encode differently are hashed from different bytes.
pub proof fn lemma_payload_hash_covers_service_data(a: Advertisement, b: Advertisement)
    requires
        opt_chars(a.local_name) == opt_chars(b.local_name),
        strs(a.service_uuids@) == strs(b.service_uuids@),
        a.manufacturer_data@ == b.manufacturer_data@,
    ensures
        exists|p: Seq<u8>|
            payload_bytes(a) == p + service_data_bytes(a.service_data@) && payload_bytes(b) == p
                + service_data_bytes(b.service_data@),
        service_data_bytes(a.service_data@) != service_data_bytes(b.service_data@) ==> payload_bytes(a)
            != payload_bytes(b),
        payload_hash_spec(a) == "ble-payload-v1:"@ + hex_fixed(fnv1a64_spec(payload_bytes(a)) as nat, 16),
{
    let sa = service_data_bytes(a.service_data@);
    let sb = service_data_bytes(b.service_data@);
    let p = payload_bytes(a).subrange(0, payload_bytes(a).len() - sa.len());
    assert(payload_bytes(a) =~= p + sa);
    assert(payload_bytes(b) =~= p + sb);
    if sa != sb {
        if payload_bytes(a) == payload_bytes(b) {
            assert(sa =~= (p + sa).skip(p.len() as int));
            assert(sb =~= (p + sb).skip(p.len() as int));
        }
    }
}

/// Each service-data item is encoded as its normalized UUID (an eight-byte
/// little-endian length, then the bytes) followed by all of its data, after
/// the items before it.
pub proof fn lemma_service_data_encoding(sd: Seq<ServiceData>, item: ServiceData)
    ensures
        service_data_bytes(sd.push(item)) == service_data_bytes(sd) + le_bytes(normalized_uuid(item.uuid@).len(), 8)
            + normalized_uuid(item.uuid@) + item.data@,
{
    assert(sd.push(item).drop_last() =~= sd);
    assert(service_data_bytes(sd.push(item)) =~= service_data_bytes(sd) + text_bytes(normalized_uuid(item.uuid@)) + item.data@);
}

/// The hashed payload bytes start with the local name as a text field (an
/// eight-byte little-endian length, then the UTF-8 bytes; empty when there
/// is no name), and hold the manufacturer data between a part that does not
/// depend on it and the service data: two advertisements that differ only in
/// manufacturer data are hashed from different bytes when their manufacturer
/// data encode differently.
pub proof fn lemma_payload_bytes_layout(a: Advertisement, b: Advertisement)
    requires
        opt_chars(a.local_name) == opt_chars(b.local_name),
        strs(a.service_uuids@) == strs(b.service_uuids@),
        a.service_data@ == b.service_data@,
    ensures
        payload_bytes(a).subrange(0, 8 + local_name_bytes(a).len() as int) == le_bytes(local_name_bytes(a).len(), 8)
            + local_name_bytes(a),
        local_name_bytes(a) == (match a.local_name {
            Some(n) => encode_utf8(n@),
            None => Seq::<u8>::empty(),
        }),
        exists|p: Seq<u8>, q: Seq<u8>|
            payload_bytes(a) == p + manufacturer_bytes(a.manufacturer_data@) + q && payload_bytes(b) == p
                + manufacturer_bytes(b.manufacturer_data@) + q,
        manufacturer_bytes(a.manufacturer_data@) != manufacturer_bytes(b.manufacturer_data@) ==> payload_bytes(a)
            != payload_bytes(b),
{
    let n = local_name_bytes(a);
    assert(payload_bytes(a).subrange(0, 8 + n.len() as int) =~= le_bytes(n.len(), 8) + n) by {
        assert(text_bytes(n) == le_bytes(n.len(), 8) + n);
        crate::ble::fingerprint::lemma_le_bytes_len(n.len(), 8);
    }
    let ma = manufacturer_bytes(a.manufacturer_data@);
    let mb = manufacturer_bytes(b.manufacturer_data@);
    let q = service_data_bytes(a.service_data@);
    let p = payload_bytes(a).subrange(0, payload_bytes(a).len() - ma.len() - q.len());
    assert(local_name_bytes(b) == n);
    assert(payload_bytes(a) =~= p + ma + q);
    assert(payload_bytes(b) =~= p + mb + q);
    if ma != mb && payload_bytes(a) == payload_bytes(b) {
        if ma.len() == mb.len() {
            assert(ma =~= payload_bytes(a).subrange(p.len() as int, p.len() + ma.len() as int));
            assert(mb =~= payload_bytes(b).subrange(p.len() as int, p.len() + mb.len() as int));
        }
    }
}

/// Whether sensor `k`'s last sighting of the tracked identity `st` is, with
/// this observation, clone evidence: another sensor, another zone, within
/// the clone window, and a pair of sensors not reported before.
pub open spec fn sighting_elsewhere(st: StateView, window: u64, obs: Observation, k: Seq<char>) -> bool {
    let seen = st.sensors[k];
    &&& st.sensors.dom().contains(k)
    &&& k != obs.context.sensor_id@
    &&& seen.zone is Some
    &&& obs.context.zone is Some
    &&& seen.zone->0 != obs.context.zone->0@
    &&& obs.monotonic_ms <= seen.at_ms + window
    &&& seen.at_ms <= obs.monotonic_ms + window
    &&& !st.clone_pairs.contains(ordered_pair(k, obs.context.sensor_id@))
}

/// A clone finding describes the sighting it rests on: the first sensor, in
/// id order, whose last sighting is clone evidence; the finding is of high
/// severity, names the identity, is dated now, and gives the earlier zone,
/// the current zone and the time between the two sightings.
pub proof fn lemma_clone_finding_describes_sighting(t: TrackerView, obs: Observation)
    requires
        keyed_by_identity(t.devices),
    ensures
        ({
            let r = tracker_observe(t, obs).1;
            let key = identify_spec(obs.advertisement).key;
            forall|i: int|
                0 <= i < r.findings.len() && #[trigger] r.findings[i].kind == RiskKind::PossibleClone ==> {
                    &&& t.devices.dom().contains(key)
                    &&& exists|k: Seq<char>|
                        #[trigger] sighting_elsewhere(t.devices[key], t.policy.clone_window_ms, obs, k) && {
                            let seen = t.devices[key].sensors[k];
                            let separation: int = if obs.monotonic_ms >= seen.at_ms {
                                obs.monotonic_ms - seen.at_ms
                            } else {
                                seen.at_ms - obs.monotonic_ms
                            };
                            &&& r.findings[i].severity == RiskSeverity::High
                            &&& r.findings[i].identity_key == Some(key)
                            &&& r.findings[i].observed_at_ms == obs.monotonic_ms
                            &&& r.findings[i].evidence == seq![
                                "zones="@ + seen.zone->0 + ","@ + obs.context.zone->0@ + ", separation_ms="@
                                    + decimal(separation as nat),
                            ]
                            &&& forall|k2: Seq<char>|
                                sighting_elsewhere(t.devices[key], t.policy.clone_window_ms, obs, k2) ==> str_leq(k, k2)
                        }
                }
        }),
{
    lemma_clone_report_step(t, obs);
    let r = tracker_observe(t, obs).1;
    let key = identify_spec(obs.advertisement).key;
    let identity = identify_spec(obs.advertisement);
    let payload = payload_hash_spec(obs.advertisement);
    let allowlisted = t.policy.allowlisted_identity_keys.contains(key);
    let st = observed_state(t, obs);
    assert forall|i: int| 0 <= i < r.findings.len() && #[trigger] r.findings[i].kind == RiskKind::PossibleClone implies {
        &&& t.devices.dom().contains(key)
        &&& exists|k: Seq<char>|
            #[trigger] sighting_elsewhere(t.devices[key], t.policy.clone_window_ms, obs, k) && {
                let seen = t.devices[key].sensors[k];
                let separation: int = if obs.monotonic_ms >= seen.at_ms {
                    obs.monotonic_ms - seen.at_ms
                } else {
                    seen.at_ms - obs.monotonic_ms
                };
                &&& r.findings[i].severity == RiskSeverity::High
                &&& r.findings[i].identity_key == Some(key)
                &&& r.findings[i].observed_at_ms == obs.monotonic_ms
                &&& r.findings[i].evidence == seq![
                    "zones="@ + seen.zone->0 + ","@ + obs.context.zone->0@ + ", separation_ms="@
                        + decimal(separation as nat),
                ]
                &&& forall|k2: Seq<char>|
                    sighting_elsewhere(t.devices[key], t.policy.clone_window_ms, obs, k2) ==> str_leq(k, k2)
            }
    } by {
        let c = clone_choice(st, t.policy, obs);
        assert(c is Some);
        let k = c->0;
        assert(first_eligible(st, t.policy, obs, k));
        if !t.devices.dom().contains(key) {
            assert(st.sensors =~= Map::<Seq<char>, crate::ble::tracker::SensorSeenView>::empty());
        }
        assert(st == t.devices[key]);
        assert(st.history.identity.key == key);
        let (st2, f) = state_step(st, t.policy, obs, payload, allowlisted);
        assert(f[0] == clone_finding_spec(st, obs, k));
        assert(r.findings[0] == f[0]);
        assert(i == 0);
        assert(sighting_elsewhere(st, t.policy.clone_window_ms, obs, k));
        assert forall|k2: Seq<char>| sighting_elsewhere(st, t.policy.clone_window_ms, obs, k2) implies str_leq(k, k2) by {
            assert(clone_eligible(st, t.policy, obs, k2));
        }
    }
}

} // verus!
