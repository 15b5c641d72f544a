use radiochron::ble::{
    identify, payload_hash, AddressType, Advertisement, IdentityConfidence, ManufacturerData,
    Observation, RiskKind, SensorContext, ServiceData, Tracker, TrackerPolicy,
};

fn advertisement(address: &str) -> Advertisement {
    Advertisement {
        address: address.to_string(),
        address_type: AddressType::RandomStatic,
        local_name: Some("tag".to_string()),
        rssi_dbm: -60,
        tx_power_dbm: Some(-20),
        connectable: Some(false),
        service_uuids: Vec::new(),
        manufacturer_data: Vec::new(),
        service_data: Vec::new(),
        protocol_identity: None,
    }
}

fn observation(address: &str, at: u64, session: Option<&str>) -> Observation {
    Observation {
        monotonic_ms: at,
        unix_epoch_ms: None,
        context: SensorContext {
            sensor_id: "sensor-a".to_string(),
            zone: Some("front".to_string()),
            movement_session: session.map(ToString::to_string),
            sensor_is_moving: session.is_some(),
        },
        advertisement: advertisement(address),
    }
}

#[test]
fn protocol_identity_survives_private_address_rotation() {
    let mut first = advertisement("aa");
    first.address_type = AddressType::ResolvablePrivate;
    let mut ibeacon = vec![0x02, 0x15];
    ibeacon.extend_from_slice(&[7; 16]);
    ibeacon.extend_from_slice(&[0, 1, 0, 2, 0xc5]);
    first.manufacturer_data.push(ManufacturerData {
        company_id: 0x004c,
        data: ibeacon,
    });
    let mut second = first.clone();
    second.address = "bb".to_string();

    let one = identify(&first);
    let two = identify(&second);
    assert_eq!(one.key, two.key);
    assert_eq!(one.confidence, IdentityConfidence::Protocol);
    assert_eq!(one.protocol.as_deref(), Some("ibeacon"));
}

#[test]
fn private_address_without_protocol_identity_is_ephemeral() {
    let mut item = advertisement("aa");
    item.address_type = AddressType::ResolvablePrivate;
    assert_eq!(
        identify(&item).confidence,
        IdentityConfidence::EphemeralAddress
    );
}

#[test]
fn reports_persistence_and_co_travel_only_after_evidence_thresholds() {
    let mut tracker = Tracker::new(TrackerPolicy {
        persistent_unknown_ms: 100,
        co_travel_min_sessions: 2,
        ..TrackerPolicy::default()
    });
    assert!(tracker
        .observe(observation("aa", 0, Some("walk-1")))
        .findings
        .is_empty());
    let result = tracker.observe(observation("aa", 100, Some("walk-2")));

    assert!(result
        .findings
        .iter()
        .any(|finding| finding.kind == RiskKind::PersistentUnknown));
    assert!(result
        .findings
        .iter()
        .any(|finding| finding.kind == RiskKind::CoTravel));
    assert_eq!(result.history.movement_session_count, 2);
}

#[test]
fn allowlist_suppresses_unknown_and_co_travel_findings() {
    let first = observation("aa", 0, Some("walk-1"));
    let key = identify(&first.advertisement).key;
    let mut tracker = Tracker::new(TrackerPolicy {
        persistent_unknown_ms: 0,
        co_travel_min_sessions: 1,
        allowlisted_identity_keys: vec![key],
        ..TrackerPolicy::default()
    });

    assert!(tracker.observe(first).findings.is_empty());
}

#[test]
fn clone_evidence_requires_strong_identity_and_distinct_zones() {
    let mut first = observation("aa", 10, None);
    first.advertisement.protocol_identity = Some("asset-7".to_string());
    let mut second = first.clone();
    second.monotonic_ms = 15;
    second.context.sensor_id = "sensor-b".to_string();
    second.context.zone = Some("back".to_string());

    let mut tracker = Tracker::new(TrackerPolicy::default());
    tracker.observe(first);
    let findings = tracker.observe(second).findings;
    assert_eq!(findings[0].kind, RiskKind::PossibleClone);
}

#[test]
fn expected_device_disappearance_is_evaluated_explicitly() {
    let first = observation("aa", 10, None);
    let key = identify(&first.advertisement).key;
    let mut tracker = Tracker::new(TrackerPolicy {
        disappearance_ms: 50,
        expected_identity_keys: vec![key],
        ..TrackerPolicy::default()
    });
    tracker.observe(first);

    assert!(tracker.evaluate(59).is_empty());
    assert_eq!(tracker.evaluate(60)[0].kind, RiskKind::Disappeared);
    assert!(tracker.evaluate(100).is_empty());
}

#[test]
fn flood_detector_counts_unique_identities_inside_window() {
    let mut tracker = Tracker::new(TrackerPolicy {
        flood_window_ms: 100,
        flood_unique_identities: 3,
        ..TrackerPolicy::default()
    });
    tracker.observe(observation("aa", 1, None));
    tracker.observe(observation("bb", 2, None));
    let result = tracker.observe(observation("cc", 3, None));

    assert!(result
        .findings
        .iter()
        .any(|finding| finding.kind == RiskKind::BeaconFlood));
}

/// Reference FNV-1a over bytes, written independently for the checks below.
fn fnv(bytes: &[u8]) -> u64 {
    let mut h = 0xcbf29ce484222325_u64;
    for b in bytes {
        h ^= u64::from(*b);
        h = h.wrapping_mul(0x100000001b3);
    }
    h
}

#[test]
fn identity_key_is_the_fnv1a_fingerprint_of_the_address() {
    let item = advertisement("aa:bb");
    let id = identify(&item);
    assert_eq!(id.key, format!("ble-id-v1:{:016x}", fnv(b"aa:bb")));
    assert_eq!(id.confidence, IdentityConfidence::StaticAddress);
    assert_eq!(id.protocol, None);
}

#[test]
fn caller_identity_takes_precedence_over_ibeacon() {
    let mut item = advertisement("aa");
    item.protocol_identity = Some("asset-7".to_string());
    let mut ibeacon = vec![0x02, 0x15];
    ibeacon.extend_from_slice(&[1; 21]);
    item.manufacturer_data.push(ManufacturerData { company_id: 0x004c, data: ibeacon });
    let id = identify(&item);
    assert_eq!(id.key, format!("ble-id-v1:{:016x}", fnv(b"asset-7")));
    assert_eq!(id.confidence, IdentityConfidence::CallerProvided);
    assert_eq!(id.protocol.as_deref(), Some("caller"));
}

#[test]
fn eddystone_uid_is_read_from_service_data() {
    let mut item = advertisement("aa");
    item.address_type = AddressType::NonResolvablePrivate;
    let mut frame = vec![0x00, 0xf0];
    frame.extend((0u8..16).collect::<Vec<u8>>());
    item.service_data.push(ServiceData { uuid: "0000FEAA-0000-1000-8000-00805F9B34FB".to_string(), data: frame.clone() });
    let id = identify(&item);
    // The uuid normalizes to ...34fb, so it is not an Eddystone service.
    assert_eq!(id.confidence, IdentityConfidence::EphemeralAddress);

    item.service_data[0].uuid = "FEAA".to_string();
    let id = identify(&item);
    assert_eq!(id.confidence, IdentityConfidence::Protocol);
    assert_eq!(id.protocol.as_deref(), Some("eddystone_uid"));
    assert_eq!(id.key, format!("ble-id-v1:{:016x}", fnv(&frame[2..18])));
}

#[test]
fn short_ibeacon_data_is_not_an_identity() {
    let mut item = advertisement("aa");
    item.manufacturer_data.push(ManufacturerData { company_id: 0x004c, data: vec![0x02, 0x15, 1, 2, 3] });
    assert_eq!(identify(&item).confidence, IdentityConfidence::StaticAddress);
}

#[test]
fn payload_hash_ignores_address_and_service_order() {
    let mut a = advertisement("aa");
    a.service_uuids = vec!["180F".to_string(), "180a".to_string()];
    let mut b = advertisement("bb");
    b.rssi_dbm = -90;
    b.service_uuids = vec!["180a".to_string(), "180F".to_string()];
    assert_eq!(payload_hash(&a), payload_hash(&b));
    assert!(payload_hash(&a).starts_with("ble-payload-v1:"));
    assert_eq!(payload_hash(&a).len(), "ble-payload-v1:".len() + 16);

    let mut c = advertisement("aa");
    c.local_name = Some("other".to_string());
    assert_ne!(payload_hash(&a), payload_hash(&c));
}

#[test]
fn payload_hash_matches_its_byte_layout() {
    let mut a = advertisement("aa");
    a.local_name = None;
    a.service_uuids = vec!["18-0F".to_string()];
    a.manufacturer_data = vec![ManufacturerData { company_id: 0x0102, data: vec![9] }];
    let mut bytes = Vec::new();
    bytes.extend_from_slice(&0u64.to_le_bytes());
    bytes.extend_from_slice(&4u64.to_le_bytes());
    bytes.extend_from_slice(b"180f");
    bytes.extend_from_slice(&[0x02, 0x01, 9]);
    assert_eq!(payload_hash(&a), format!("ble-payload-v1:{:016x}", fnv(&bytes)));
}

#[test]
fn persistence_is_reported_once() {
    let mut tracker = Tracker::new(TrackerPolicy { persistent_unknown_ms: 10, ..TrackerPolicy::default() });
    tracker.observe(observation("aa", 0, None));
    let second = tracker.observe(observation("aa", 10, None));
    assert_eq!(second.findings.len(), 1);
    assert_eq!(second.findings[0].kind, RiskKind::PersistentUnknown);
    assert_eq!(second.findings[0].evidence, vec!["dwell_ms=10, observations=2".to_string()]);
    let third = tracker.observe(observation("aa", 20, None));
    assert!(third.findings.is_empty());
}

#[test]
fn history_counts_rssi_and_sensors() {
    let mut tracker = Tracker::new(TrackerPolicy::default());
    let mut first = observation("aa", 5, None);
    first.advertisement.rssi_dbm = -50;
    let mut second = observation("aa", 9, None);
    second.advertisement.rssi_dbm = -71;
    second.context.sensor_id = "sensor-b".to_string();
    tracker.observe(first);
    let result = tracker.observe(second);
    let h = &result.history;
    assert_eq!(h.first_seen_ms, 5);
    assert_eq!(h.last_seen_ms, 9);
    assert_eq!(h.observation_count, 2);
    assert_eq!(h.sensor_count, 2);
    assert_eq!(h.rssi_min_dbm, -71);
    assert_eq!(h.rssi_max_dbm, -50);
    // (-50 + -71) / 2 rounds toward zero.
    assert_eq!(h.rssi_mean_dbm, -60);
    assert_eq!(tracker.history(&result.identity.key).unwrap(), h);
    assert_eq!(tracker.histories().len(), 1);
    assert!(tracker.history("ble-id-v1:0000000000000000").is_none());
}

#[test]
fn clone_evidence_is_not_raised_for_address_identities_or_same_zone() {
    let first = observation("aa", 10, None);
    let mut second = first.clone();
    second.context.sensor_id = "sensor-b".to_string();
    second.context.zone = Some("back".to_string());
    let mut tracker = Tracker::new(TrackerPolicy::default());
    tracker.observe(first.clone());
    assert!(tracker.observe(second).findings.is_empty());

    let mut strong = first.clone();
    strong.advertisement.protocol_identity = Some("asset".to_string());
    let mut same_zone = strong.clone();
    same_zone.context.sensor_id = "sensor-b".to_string();
    let mut tracker = Tracker::new(TrackerPolicy::default());
    tracker.observe(strong);
    assert!(tracker.observe(same_zone).findings.is_empty());
}

#[test]
fn clone_finding_describes_zones_and_is_reported_once_per_pair() {
    let mut first = observation("aa", 10, None);
    first.advertisement.protocol_identity = Some("asset-7".to_string());
    let mut second = first.clone();
    second.monotonic_ms = 15;
    second.context.sensor_id = "sensor-b".to_string();
    second.context.zone = Some("back".to_string());
    let mut tracker = Tracker::new(TrackerPolicy::default());
    tracker.observe(first.clone());
    let findings = tracker.observe(second.clone()).findings;
    assert_eq!(findings.len(), 1);
    assert_eq!(findings[0].evidence, vec!["zones=front,back, separation_ms=5".to_string()]);
    let mut again = first;
    again.monotonic_ms = 16;
    assert!(tracker.observe(again).findings.is_empty());
}

#[test]
fn flood_is_not_repeated_within_the_window() {
    let mut tracker = Tracker::new(TrackerPolicy {
        flood_window_ms: 100,
        flood_unique_identities: 2,
        ..TrackerPolicy::default()
    });
    tracker.observe(observation("aa", 1, None));
    let first = tracker.observe(observation("bb", 2, None));
    assert_eq!(first.findings.len(), 1);
    assert_eq!(first.findings[0].evidence, vec!["unique_identities=2, window_ms=100".to_string()]);
    let second = tracker.observe(observation("cc", 50, None));
    assert!(second.findings.is_empty());
}

#[test]
fn disappearance_is_reported_again_after_the_device_returns() {
    let first = observation("aa", 10, None);
    let key = identify(&first.advertisement).key;
    let mut tracker = Tracker::new(TrackerPolicy {
        disappearance_ms: 50,
        expected_identity_keys: vec![key.clone(), "ble-id-v1:never-seen".to_string()],
        ..TrackerPolicy::default()
    });
    tracker.observe(first);
    let gone = tracker.evaluate(60);
    assert_eq!(gone.len(), 1);
    assert_eq!(gone[0].identity_key.as_deref(), Some(key.as_str()));
    assert_eq!(gone[0].evidence, vec!["last_seen_ms=10, missing_for_ms=50".to_string()]);
    tracker.observe(observation("aa", 70, None));
    assert!(tracker.evaluate(100).is_empty());
    assert_eq!(tracker.evaluate(120).len(), 1);
}

#[test]
fn default_policy_values() {
    let p = TrackerPolicy::default();
    assert_eq!(p.persistent_unknown_ms, 1_800_000);
    assert_eq!(p.co_travel_min_sessions, 3);
    assert_eq!(p.disappearance_ms, 300_000);
    assert_eq!(p.clone_window_ms, 10_000);
    assert_eq!(p.flood_window_ms, 60_000);
    assert_eq!(p.flood_unique_identities, 100);
    assert!(IdentityConfidence::Protocol.supports_clone_evidence());
    assert!(IdentityConfidence::CallerProvided.supports_clone_evidence());
    assert!(!IdentityConfidence::StaticAddress.supports_clone_evidence());
    assert!(!IdentityConfidence::EphemeralAddress.supports_clone_evidence());
}

#[test]
fn identity_keys_never_hold_the_identity_in_the_clear() {
    let mut item = advertisement("11:22:33:44:55:66");
    item.protocol_identity = Some("owner@example.org".to_string());
    for candidate in [identify(&item), identify(&advertisement("11:22:33:44:55:66"))] {
        assert_eq!(candidate.key.len(), 26);
        assert!(candidate.key.starts_with("ble-id-v1:"));
        assert!(candidate.key[10..].chars().all(|c| c.is_ascii_digit() || ('a'..='f').contains(&c)));
        assert!(!candidate.key.contains("owner"));
        assert!(!candidate.key.contains("11:22"));
    }
}

#[test]
fn an_address_that_collides_with_a_caller_identity_gives_no_clone_evidence() {
    let mut first = observation("aa", 10, None);
    first.advertisement.protocol_identity = Some("aa".to_string());
    let mut second = observation("aa", 15, None);
    second.context.sensor_id = "sensor-b".to_string();
    second.context.zone = Some("back".to_string());

    let mut tracker = Tracker::new(TrackerPolicy::default());
    let a = tracker.observe(first);
    let b = tracker.observe(second);
    assert_eq!(a.identity.key, b.identity.key);
    assert_eq!(b.identity.confidence, IdentityConfidence::StaticAddress);
    assert!(b.findings.iter().all(|f| f.kind != RiskKind::PossibleClone));

    let mut third = observation("aa", 20, None);
    third.advertisement.protocol_identity = Some("aa".to_string());
    third.context.sensor_id = "sensor-c".to_string();
    third.context.zone = Some("side".to_string());
    let c = tracker.observe(third);
    assert!(c.findings.iter().any(|f| f.kind == RiskKind::PossibleClone));
}
