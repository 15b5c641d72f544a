//! Findings raised by the tracker.

use vstd::prelude::*;

use crate::ble::model::{DeviceHistory, DeviceHistoryView, Finding, FindingView, RiskKind, RiskSeverity};
use crate::text::{decimal, push_decimal};

verus! {

/// The finding for an unknown identity that stayed beyond the threshold.
pub open spec fn persistent_spec(h: DeviceHistoryView, now: u64) -> FindingView {
    FindingView {
        kind: RiskKind::PersistentUnknown,
        severity: RiskSeverity::Info,
        identity_key: Some(h.identity.key),
        observed_at_ms: now,
        summary: "Unknown BLE identity persisted beyond the configured threshold"@,
        evidence: seq![
            "dwell_ms="@ + decimal(now.saturating_sub(h.first_seen_ms) as nat) + ", observations="@
                + decimal(h.observation_count as nat),
        ],
        limitations: seq!["Persistence alone does not imply tracking or danger"@],
    }
}

/// The finding for an unknown identity seen across moving sensor sessions.
pub open spec fn co_travel_spec(h: DeviceHistoryView, now: u64) -> FindingView {
    FindingView {
        kind: RiskKind::CoTravel,
        severity: RiskSeverity::Warning,
        identity_key: Some(h.identity.key),
        observed_at_ms: now,
        summary: "Unknown BLE identity recurred across moving sensor sessions"@,
        evidence: seq!["movement_sessions="@ + decimal(h.movement_session_count as nat)],
        limitations: seq![
            "The caller must define independent movement sessions correctly"@,
            "Generic BLE evidence cannot identify an owner or intent"@,
        ],
    }
}

/// A vector of one string.
pub fn one_string(a: String) -> (v: Vec<String>)
    ensures
        v@.len() == 1,
        v@[0] == a,
{
    let mut v = Vec::new();
    v.push(a);
    v
}

/// A vector of two strings.
pub fn two_strings(a: String, b: String) -> (v: Vec<String>)
    ensures
        v@.len() == 2,
        v@[0] == a,
        v@[1] == b,
{
    let mut v = Vec::new();
    v.push(a);
    v.push(b);
    v
}

pub fn persistent(history: &DeviceHistory, now: u64) -> (f: Finding)
    ensures
        f@ == persistent_spec(history@, now),
{
    let mut evidence = "dwell_ms=".to_owned();
    push_decimal(&mut evidence, now.saturating_sub(history.first_seen_ms));
    evidence.append(", observations=");
    push_decimal(&mut evidence, history.observation_count);
    let f = Finding {
        kind: RiskKind::PersistentUnknown,
        severity: RiskSeverity::Info,
        identity_key: Some(history.identity.key.clone()),
        observed_at_ms: now,
        summary: "Unknown BLE identity persisted beyond the configured threshold".to_owned(),
        evidence: one_string(evidence),
        limitations: one_string("Persistence alone does not imply tracking or danger".to_owned()),
    };
    assert(f@.evidence =~= persistent_spec(history@, now).evidence);
    assert(f@.limitations =~= persistent_spec(history@, now).limitations);
    f
}

pub fn co_travel(history: &DeviceHistory, now: u64) -> (f: Finding)
    ensures
        f@ == co_travel_spec(history@, now),
{
    let mut evidence = "movement_sessions=".to_owned();
    push_decimal(&mut evidence, history.movement_session_count as u64);
    let f = Finding {
        kind: RiskKind::CoTravel,
        severity: RiskSeverity::Warning,
        identity_key: Some(history.identity.key.clone()),
        observed_at_ms: now,
        summary: "Unknown BLE identity recurred across moving sensor sessions".to_owned(),
        evidence: one_string(evidence),
        limitations: two_strings(
            "The caller must define independent movement sessions correctly".to_owned(),
            "Generic BLE evidence cannot identify an owner or intent".to_owned(),
        ),
    };
    assert(f@.evidence =~= co_travel_spec(history@, now).evidence);
    assert(f@.limitations =~= co_travel_spec(history@, now).limitations);
    f
}

} // verus!
