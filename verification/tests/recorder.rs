use radiochron::recorder::{
    fresh_log_events, observation_from_status, Connection, EntrySink, LogEvent, Recorder, RecorderOptions,
};

fn connection(ssid: &str, rssi: i32) -> Connection {
    Connection { ssid: Some(ssid.to_string()), bssid: Some("aa:bb".to_string()), rssi_dbm_estimate: rssi }
}

#[test]
fn a_failed_status_read_is_a_disconnected_observation() {
    let o = observation_from_status(None);
    assert!(!o.connected);
    assert_eq!(o.ssid, None);
    assert_eq!(o.bssid, None);
    assert_eq!(o.rssi_dbm, None);
    let o = observation_from_status(Some(vec![None, None]));
    assert!(!o.connected);
    let o = observation_from_status(Some(Vec::new()));
    assert!(!o.connected);
}

#[test]
fn the_first_connection_is_observed() {
    let o = observation_from_status(Some(vec![None, Some(connection("home", -61)), Some(connection("work", -40))]));
    assert!(o.connected);
    assert_eq!(o.ssid.as_deref(), Some("home"));
    assert_eq!(o.bssid.as_deref(), Some("aa:bb"));
    assert_eq!(o.rssi_dbm, Some(-61));
}

fn event(epoch: i64, id: u32) -> LogEvent {
    LogEvent { epoch_seconds: epoch, event_id: id, meaning: format!("m{id}"), data: vec![("k".to_string(), id.to_string())] }
}

#[test]
fn only_newer_log_events_are_kept_oldest_first() {
    // The reader lists events newest first.
    let events = vec![event(130, 3), event(120, 2), event(100, 1), event(90, 0)];
    let (fresh, newest) = fresh_log_events(events, 100);
    let ids: Vec<u32> = fresh.iter().map(|e| e.event_id).collect();
    assert_eq!(ids, vec![2, 3]);
    assert_eq!(fresh[0].meaning, "m2");
    assert_eq!(fresh[1].fields, vec![("k".to_string(), "3".to_string())]);
    assert_eq!(newest, 130);

    let (again, still) = fresh_log_events(vec![event(130, 3), event(120, 2)], newest);
    assert!(again.is_empty());
    assert_eq!(still, 130);

    let (none, kept) = fresh_log_events(Vec::new(), 55);
    assert!(none.is_empty());
    assert_eq!(kept, 55);
}

#[test]
fn a_connection_without_names_keeps_them_absent() {
    let c = Connection { ssid: None, bssid: None, rssi_dbm_estimate: -50 };
    let o = observation_from_status(Some(vec![Some(c)]));
    assert!(o.connected);
    assert_eq!(o.ssid, None);
    assert_eq!(o.rssi_dbm, Some(-50));
}

/// A sink that logs its calls and refuses the write at a given position.
#[derive(Default)]
struct Log {
    calls: Vec<String>,
    refuse_write: Option<usize>,
    refuse_flush: bool,
    writes: usize,
}

impl EntrySink<String> for Log {
    type Error = String;

    fn write(&mut self, entry: &String) -> Result<(), String> {
        self.calls.push(format!("write {entry}"));
        self.writes += 1;
        if self.refuse_write == Some(self.writes - 1) {
            return Err(format!("refused {entry}"));
        }
        Ok(())
    }

    fn flush(&mut self) -> Result<(), String> {
        self.calls.push("flush".to_string());
        if self.refuse_flush {
            return Err("flush failed".to_string());
        }
        Ok(())
    }
}

fn entries(names: &[&str]) -> Vec<String> {
    names.iter().map(|n| n.to_string()).collect()
}

#[test]
fn one_poll_writes_each_entry_then_flushes_once() {
    let mut recorder = Recorder::new(Log::default(), RecorderOptions::default(), 0);
    assert_eq!(recorder.write_entries(entries(&["a", "b"])), Ok(2));
    assert_eq!(recorder.write_entries(Vec::new()), Ok(0));
    let log = recorder.into_sink();
    assert_eq!(log.calls, vec!["write a", "write b", "flush"]);
}

#[test]
fn one_poll_stops_at_the_first_refused_write() {
    let sink = Log { refuse_write: Some(1), ..Log::default() };
    let mut recorder = Recorder::new(sink, RecorderOptions::default(), 0);
    assert_eq!(recorder.write_entries(entries(&["a", "b", "c"])), Err("refused b".to_string()));
    assert_eq!(recorder.into_sink().calls, vec!["write a", "write b"]);
}

#[test]
fn a_failed_flush_is_the_poll_error() {
    let sink = Log { refuse_flush: true, ..Log::default() };
    let mut recorder = Recorder::new(sink, RecorderOptions::default(), 0);
    assert_eq!(recorder.write_entries(entries(&["a"])), Err("flush failed".to_string()));
}

#[test]
fn the_recorder_only_passes_log_events_newer_than_its_start() {
    let mut recorder: Recorder<String, Log> = Recorder::new(Log::default(), RecorderOptions::default(), 100);
    let first = recorder.take_fresh_log_events(vec![event(120, 2), event(90, 1)]);
    assert_eq!(first.iter().map(|e| e.event_id).collect::<Vec<_>>(), vec![2]);
    let second = recorder.take_fresh_log_events(vec![event(130, 3), event(120, 2)]);
    assert_eq!(second.iter().map(|e| e.event_id).collect::<Vec<_>>(), vec![3]);
}

#[test]
fn default_options_poll_every_five_seconds() {
    let o = RecorderOptions::default();
    assert_eq!(o.interval_ms, 5000);
    assert_eq!(o.signal_threshold_db, 8);
}
