use radiochron::adapter::{
    address_type, advertisement_from_scan, BleAddressKind, BleAdvertisingKind, BleDriver,
    EspIdfBleCollector,
};
use radiochron::ble::{
    AddressType, Advertisement, Collector, ManufacturerData, RiskKind, SensorContext, ServiceData,
    Snapshot, Tracker, TrackerPolicy,
};
use radiochron::embedded::chronicle::{Chronicle, Clock, ClockReading, Entry, EventKind, Sink};

fn advertisement(address: &str, rssi_dbm: i16) -> Advertisement {
    Advertisement {
        address: address.to_string(),
        address_type: AddressType::RandomStatic,
        local_name: None,
        rssi_dbm,
        tx_power_dbm: None,
        connectable: None,
        service_uuids: Vec::new(),
        manufacturer_data: Vec::new(),
        service_data: Vec::new(),
        protocol_identity: None,
    }
}

fn context(session: Option<&str>) -> SensorContext {
    SensorContext {
        sensor_id: "sensor-a".to_string(),
        zone: Some("front".to_string()),
        movement_session: session.map(ToString::to_string),
        sensor_is_moving: session.is_some(),
    }
}

/// A sink that keeps a one-line description of each entry.
#[derive(Default)]
struct Lines {
    lines: Vec<String>,
    fail_after: Option<usize>,
}

impl Sink for Lines {
    type Error = String;

    fn write(&mut self, entry: &Entry) -> Result<(), String> {
        if self.fail_after == Some(self.lines.len()) {
            return Err("full".to_string());
        }
        let line = match &entry.kind {
            EventKind::BleObservation { sensor_id, payload_hash, rssi_dbm, .. } => {
                format!("obs {} {} {} {:?}", sensor_id, payload_hash, rssi_dbm, entry.sensor_id)
            }
            EventKind::BleFinding { finding } => format!("finding {:?} {:?}", finding.kind, entry.sensor_id),
        };
        self.lines.push(line);
        Ok(())
    }
}

/// A clock that advances by a fixed step on each reading.
struct Stepping {
    next_ms: u64,
    step_ms: u64,
}

impl Clock for Stepping {
    fn now(&mut self) -> ClockReading {
        let reading = ClockReading { monotonic_ms: self.next_ms, unix_epoch_ms: None };
        self.next_ms += self.step_ms;
        reading
    }
}

#[test]
fn chronicle_records_observation_then_findings() {
    let mut tracker = Tracker::new(TrackerPolicy {
        persistent_unknown_ms: 1_000,
        ..TrackerPolicy::default()
    });
    let mut chronicle = Chronicle::new(Lines::default(), Stepping { next_ms: 0, step_ms: 1_000 });
    let first = chronicle.observe_ble(context(None), advertisement("aa", -50), &mut tracker).unwrap();
    assert!(first.findings.is_empty());
    let second = chronicle.observe_ble(context(None), advertisement("aa", -51), &mut tracker).unwrap();
    assert!(second.findings.iter().any(|f| f.kind == RiskKind::PersistentUnknown));
    assert_eq!(tracker.history(&second.identity.key).unwrap().observation_count, 2);
    assert_eq!(tracker.history(&second.identity.key).unwrap().last_seen_ms, 1_000);

    let sink = chronicle.into_sink();
    assert_eq!(sink.lines.len(), 2 + second.findings.len());
    assert!(sink.lines[0].starts_with("obs sensor-a "));
    assert!(sink.lines[0].ends_with(" -50 Some(\"sensor-a\")"));
    assert!(sink.lines[1].ends_with(" -51 Some(\"sensor-a\")"));
    assert!(sink.lines[2].starts_with("finding "));
    assert!(sink.lines[2].ends_with(" None"));
}

#[test]
fn chronicle_updates_the_tracker_even_when_the_sink_refuses() {
    let mut tracker = Tracker::new(TrackerPolicy::default());
    let sink = Lines { lines: Vec::new(), fail_after: Some(0) };
    let mut chronicle = Chronicle::new(sink, Stepping { next_ms: 42, step_ms: 0 });
    let outcome = chronicle.observe_ble(context(None), advertisement("bb", -70), &mut tracker);
    assert_eq!(outcome.unwrap_err(), "full");
    let histories = tracker.histories();
    assert_eq!(histories.len(), 1);
    assert_eq!(histories[0].first_seen_ms, 42);
    assert_eq!(histories[0].rssi_min_dbm, -70);
}

#[test]
fn chronicle_evaluates_disappearance_at_its_clock() {
    let policy = TrackerPolicy {
        disappearance_ms: 1_000,
        expected_identity_keys: Vec::new(),
        ..TrackerPolicy::default()
    };
    let mut tracker = Tracker::new(policy);
    let mut chronicle = Chronicle::new(Lines::default(), Stepping { next_ms: 0, step_ms: 5_000 });
    let result = chronicle.observe_ble(context(None), advertisement("cc", -40), &mut tracker).unwrap();

    let mut policy = tracker.policy().clone();
    policy.expected_identity_keys = vec![result.identity.key.clone()];
    let mut tracker_expected = Tracker::new(policy);
    let mut chronicle2 = Chronicle::new(Lines::default(), Stepping { next_ms: 0, step_ms: 5_000 });
    chronicle2.observe_ble(context(None), advertisement("cc", -40), &mut tracker_expected).unwrap();
    let findings = chronicle2.evaluate_ble(&mut tracker_expected).unwrap();
    assert_eq!(findings.len(), 1);
    assert_eq!(findings[0].kind, RiskKind::Disappeared);
    assert_eq!(findings[0].observed_at_ms, 5_000);
    let again = chronicle2.evaluate_ble(&mut tracker_expected).unwrap();
    assert!(again.is_empty());
    let sink = chronicle2.into_sink();
    assert_eq!(sink.lines.len(), 2);
    assert!(sink.lines[1].starts_with("finding Disappeared"));

    assert!(chronicle.evaluate_ble(&mut tracker).unwrap().is_empty());
}

#[test]
fn clock_mut_reaches_the_chronicle_clock() {
    let mut chronicle = Chronicle::new(Lines::default(), Stepping { next_ms: 7, step_ms: 1 });
    chronicle.clock_mut().next_ms = 100;
    let mut tracker = Tracker::new(TrackerPolicy::default());
    let result = chronicle.observe_ble(context(None), advertisement("dd", -30), &mut tracker).unwrap();
    assert_eq!(tracker.history(&result.identity.key).unwrap().first_seen_ms, 100);
}

/// A driver that hands out a fixed list of advertisements.
struct FixedDriver {
    advertisements: Vec<Advertisement>,
    scans: usize,
}

impl BleDriver for FixedDriver {
    type Error = ();

    fn scan(&mut self, output: &mut Vec<Advertisement>) -> Result<(), ()> {
        self.scans += 1;
        output.extend(self.advertisements.iter().cloned());
        Ok(())
    }
}

#[test]
fn collector_forwards_scans_to_its_driver() {
    let driver = FixedDriver { advertisements: vec![advertisement("ee", -20)], scans: 0 };
    let mut collector = EspIdfBleCollector::new(driver);
    let mut snapshot = Snapshot::new();
    snapshot.advertisements.push(advertisement("stale", -99));
    snapshot.refresh(&mut collector).unwrap();
    assert_eq!(snapshot.advertisements, vec![advertisement("ee", -20)]);
    let mut direct = Vec::new();
    collector.scan(&mut direct).unwrap();
    assert_eq!(direct.len(), 1);
    collector.driver_mut().advertisements.clear();
    snapshot.refresh(&mut collector).unwrap();
    assert!(snapshot.advertisements.is_empty());
    assert_eq!(collector.into_inner().scans, 3);
}

#[test]
fn address_kind_and_top_bits_give_the_address_type() {
    assert_eq!(address_type(BleAddressKind::Public, 0xff), AddressType::Public);
    assert_eq!(address_type(BleAddressKind::PublicId, 0x00), AddressType::Public);
    assert_eq!(address_type(BleAddressKind::Random, 0xc0), AddressType::RandomStatic);
    assert_eq!(address_type(BleAddressKind::RandomId, 0xff), AddressType::RandomStatic);
    assert_eq!(address_type(BleAddressKind::Random, 0x40), AddressType::ResolvablePrivate);
    assert_eq!(address_type(BleAddressKind::Random, 0x7f), AddressType::ResolvablePrivate);
    assert_eq!(address_type(BleAddressKind::Random, 0x3f), AddressType::NonResolvablePrivate);
    assert_eq!(address_type(BleAddressKind::Random, 0x80), AddressType::Unknown);
    assert_eq!(address_type(BleAddressKind::RandomId, 0xbf), AddressType::Unknown);
}

#[test]
fn scanned_fields_become_a_portable_advertisement() {
    let a = advertisement_from_scan(
        "c4:11:22:33:44:55".to_string(),
        BleAddressKind::Random,
        0xc4,
        Some("tag".to_string()),
        -71,
        Some(0xf4),
        BleAdvertisingKind::DirectInd,
        vec!["180f".to_string()],
        Some(ManufacturerData { company_id: 0x004c, data: vec![2, 0x15] }),
        None,
    );
    assert_eq!(a.address, "c4:11:22:33:44:55");
    assert_eq!(a.address_type, AddressType::RandomStatic);
    assert_eq!(a.local_name.as_deref(), Some("tag"));
    assert_eq!(a.rssi_dbm, -71);
    assert_eq!(a.tx_power_dbm, Some(-12));
    assert_eq!(a.connectable, Some(true));
    assert_eq!(a.service_uuids, vec!["180f".to_string()]);
    assert_eq!(a.manufacturer_data.len(), 1);
    assert_eq!(a.manufacturer_data[0].company_id, 0x004c);
    assert!(a.service_data.is_empty());
    assert_eq!(a.protocol_identity, None);

    let b = advertisement_from_scan(
        "00:00:00:00:00:01".to_string(),
        BleAddressKind::Public,
        0x00,
        None,
        0,
        Some(20),
        BleAdvertisingKind::NonconnInd,
        Vec::new(),
        None,
        Some(ServiceData { uuid: "feaa".to_string(), data: vec![0] }),
    );
    assert_eq!(b.address_type, AddressType::Public);
    assert_eq!(b.tx_power_dbm, Some(20));
    assert_eq!(b.connectable, Some(false));
    assert_eq!(b.service_data.len(), 1);
    assert!(b.manufacturer_data.is_empty());
    for kind in [BleAdvertisingKind::ScanInd, BleAdvertisingKind::ScanResponse, BleAdvertisingKind::Extended] {
        let c = advertisement_from_scan(String::new(), BleAddressKind::Random, 0x40, None, 0, None, kind, Vec::new(), None, None);
        assert_eq!(c.connectable, Some(false));
        assert_eq!(c.tx_power_dbm, None);
        assert_eq!(c.address_type, AddressType::ResolvablePrivate);
    }
    let d = advertisement_from_scan(String::new(), BleAddressKind::Random, 0, None, 0, None, BleAdvertisingKind::Ind, Vec::new(), None, None);
    assert_eq!(d.connectable, Some(true));
}

#[test]
fn chronicle_stops_at_the_first_refused_entry() {
    let policy = TrackerPolicy { persistent_unknown_ms: 0, ..TrackerPolicy::default() };
    let mut tracker = Tracker::new(policy);
    let sink = Lines { lines: Vec::new(), fail_after: Some(1) };
    let mut chronicle = Chronicle::new(sink, Stepping { next_ms: 5, step_ms: 0 });
    let outcome = chronicle.observe_ble(context(None), advertisement("ff", -45), &mut tracker);
    assert_eq!(outcome.unwrap_err(), "full");
    assert_eq!(tracker.histories().len(), 1);
    let sink = chronicle.into_sink();
    assert_eq!(sink.lines.len(), 1);
    assert!(sink.lines[0].starts_with("obs sensor-a "));
}
