//! The chronicle recorder, apart from the polling: what a status read counts
//! as, which event-log records are new since the last poll, and how one
//! poll's entries are written. The caller owns the loop: it reads the radio
//! and the log, and hands the results here.

use vstd::prelude::*;

verus! {

/// The current association of one interface, as a status read reports it.
pub struct Connection {
    pub ssid: Option<String>,
    pub bssid: Option<String>,
    pub rssi_dbm_estimate: i32,
}

/// One polled observation of the association state.
pub struct WlanObservation {
    pub connected: bool,
    pub ssid: Option<String>,
    pub bssid: Option<String>,
    pub rssi_dbm: Option<i32>,
}

/// The first interface that reports a connection.
pub open spec fn first_connection(status: Seq<Option<Connection>>) -> Option<Connection>
    decreases status.len(),
{
    if status.len() == 0 {
        None
    } else {
        match status[0] {
            Some(c) => Some(c),
            None => first_connection(status.drop_first()),
        }
    }
}

/// The observation of a radio that is not associated, or could not be read:
/// not connected, no names, no signal.
pub open spec fn disconnected() -> WlanObservation {
    WlanObservation { connected: false, ssid: None, bssid: None, rssi_dbm: None }
}

/// What one status read counts as: a failed read (`None`) or a read without
/// any connection is the disconnected observation; otherwise the first
/// connection, with its names and signal estimate.
pub open spec fn observation_of(status: Option<Seq<Option<Connection>>>) -> WlanObservation {
    match status {
        None => disconnected(),
        Some(s) => match first_connection(s) {
            None => disconnected(),
            Some(c) => WlanObservation {
                connected: true,
                ssid: c.ssid,
                bssid: c.bssid,
                rssi_dbm: Some(c.rssi_dbm_estimate),
            },
        },
    }
}

/// The view of an optional list.
pub open spec fn opt_seq<T>(o: Option<Vec<T>>) -> Option<Seq<T>> {
    match o {
        Some(v) => Some(v@),
        None => None,
    }
}

fn disconnected_observation() -> (o: WlanObservation)
    ensures
        o == disconnected(),
{
    WlanObservation { connected: false, ssid: None, bssid: None, rssi_dbm: None }
}

/// Turns one status read into an observation. A failed read is recorded as
/// a disconnected observation rather than ending the recording: for a
/// recorder, "could not see the radio" is itself a data point.
pub fn observation_from_status(status: Option<Vec<Option<Connection>>>) -> (o: WlanObservation)
    ensures
        o == observation_of(opt_seq(status)),
{
    let ghost whole = opt_seq(status);
    let mut v = match status {
        Some(v) => v,
        None => return disconnected_observation(),
    };
    let ghost s = v@;
    assert(whole == Some(s));
    let mut i: usize = 0;
    assert(s.skip(0) =~= s);
    while i < v.len()
        invariant
            v@ == s,
            i <= s.len(),
            first_connection(s) == first_connection(s.skip(i as int)),
            whole == Some(s),
            whole == opt_seq(status),
        decreases s.len() - i,
    {
        if v[i].is_some() {
            assert(s.skip(i as int)[0] == s[i as int]);
            assert(first_connection(s) == s[i as int]);
            let found = v.remove(i);
            match found {
                Some(c) => {
                    assert(Some(c) == first_connection(s));
                    let o = WlanObservation {
                        connected: true,
                        ssid: c.ssid,
                        bssid: c.bssid,
                        rssi_dbm: Some(c.rssi_dbm_estimate),
                    };
                    return o;
                },
                None => {
                    return disconnected_observation();
                },
            }
        }
        assert(s.skip(i as int).drop_first() =~= s.skip(i + 1));
        i = i + 1;
    }
    assert(s.skip(i as int).len() == 0);
    disconnected_observation()
}

/// One record of the event log, as the reader returns it.
pub struct LogEvent {
    pub epoch_seconds: i64,
    pub event_id: u32,
    pub meaning: String,
    pub data: Vec<(String, String)>,
}

/// One chronicle entry made from an event-log record.
pub struct LogEntry {
    pub event_id: u32,
    pub meaning: String,
    pub fields: Vec<(String, String)>,
}

/// The entry that records an event.
pub open spec fn entry_of(e: LogEvent) -> LogEntry {
    LogEntry { event_id: e.event_id, meaning: e.meaning, fields: e.data }
}

/// The events strictly newer than `last_epoch`, in the reverse of the given
/// order: the reader lists events newest first, a chronicle reads oldest first.
pub open spec fn newer_reversed(events: Seq<LogEvent>, last_epoch: i64) -> Seq<LogEvent>
    decreases events.len(),
{
    if events.len() == 0 {
        seq![]
    } else {
        let rest = newer_reversed(events.drop_first(), last_epoch);
        if events[0].epoch_seconds > last_epoch {
            rest.push(events[0])
        } else {
            rest
        }
    }
}

/// The newest epoch among `last_epoch` and those of the events.
pub open spec fn newest_epoch(events: Seq<LogEvent>, last_epoch: i64) -> i64
    decreases events.len(),
{
    if events.len() == 0 {
        last_epoch
    } else {
        let rest = newest_epoch(events.drop_first(), last_epoch);
        if events[0].epoch_seconds > rest {
            events[0].epoch_seconds
        } else {
            rest
        }
    }
}

/// The new event-log records since the last poll, oldest first, and the
/// epoch to compare against next time: the larger of `last_epoch` and the
/// newest epoch read. Records at or before `last_epoch` were already
/// chronicled and are dropped, so overlapping reads do not duplicate them.
pub fn fresh_log_events(events: Vec<LogEvent>, last_epoch: i64) -> (r: (Vec<LogEntry>, i64))
    ensures
        r.0@ == newer_reversed(events@, last_epoch).map_values(|e: LogEvent| entry_of(e)),
        r.1 == newest_epoch(events@, last_epoch),
{
    let ghost s = events@;
    let mut rest = events;
    let mut out: Vec<LogEntry> = Vec::new();
    let mut newest = last_epoch;
    assert(s.skip(s.len() as int) =~= Seq::<LogEvent>::empty());
    while rest.len() > 0
        invariant
            rest@ == s.subrange(0, rest@.len() as int),
            rest@.len() <= s.len(),
            out@ == newer_reversed(s.skip(rest@.len() as int), last_epoch).map_values(|e: LogEvent| entry_of(e)),
            newest == newest_epoch(s.skip(rest@.len() as int), last_epoch),
        decreases rest.len(),
    {
        let ghost k = rest@.len() - 1;
        let e = match rest.pop() {
            Some(e) => e,
            None => {
                return (out, newest);
            },
        };
        proof {
            assert(e == s[k]);
            assert(s.skip(k).drop_first() =~= s.skip(k + 1));
            assert(s.skip(k)[0] == s[k]);
            assert(rest@ =~= s.subrange(0, k));
        }
        if e.epoch_seconds > newest {
            newest = e.epoch_seconds;
        }
        if e.epoch_seconds > last_epoch {
            let ghost before = out@;
            out.push(LogEntry { event_id: e.event_id, meaning: e.meaning, fields: e.data });
            proof {
                assert(out@ =~= newer_reversed(s.skip(k), last_epoch).map_values(|x: LogEvent| entry_of(x)));
            }
        } else {
            assert(out@ =~= newer_reversed(s.skip(k), last_epoch).map_values(|x: LogEvent| entry_of(x)));
        }
    }
    assert(s.skip(0) =~= s);
    (out, newest)
}

/// How the recorder polls.
pub struct RecorderOptions {
    /// Delay between polls, in milliseconds.
    pub interval_ms: u64,
    /// Hysteresis for a signal shift, in dB.
    pub signal_threshold_db: i32,
}

impl Default for RecorderOptions {
    fn default() -> (o: Self)
        ensures
            o.interval_ms == 5000,
            o.signal_threshold_db == 8,
    {
        RecorderOptions { interval_ms: 5000, signal_threshold_db: 8 }
    }
}

/// Where the recorder's entries go, supplied by the caller.
pub trait EntrySink<E> {
    type Error;

    fn write(&mut self, entry: &E) -> Result<(), Self::Error>;

    fn flush(&mut self) -> Result<(), Self::Error>;
}

/// One call that the recorder made on its sink, with the sink's answer.
pub enum SinkCall<E, X> {
    Write(E, Result<(), X>),
    Flush(Result<(), X>),
}

/// A write of `entry` that the sink accepted.
pub open spec fn accepted_write<E, X>(c: SinkCall<E, X>, entry: E) -> bool {
    c matches SinkCall::Write(x, a) && x == entry && a is Ok
}

/// A flush that the sink accepted.
pub open spec fn accepted_flush<E, X>(c: SinkCall<E, X>) -> bool {
    c matches SinkCall::Flush(a) && a is Ok
}

/// The first `k` calls wrote the first `k` entries, in order, and the sink
/// accepted each of them.
pub open spec fn wrote_accepted<E, X>(calls: Seq<SinkCall<E, X>>, entries: Seq<E>, k: int) -> bool {
    &&& 0 <= k <= entries.len()
    &&& k <= calls.len()
    &&& forall|i: int| 0 <= i < k ==> accepted_write(#[trigger] calls[i], entries[i])
}

proof fn lemma_wrote_push<E, X>(calls: Seq<SinkCall<E, X>>, entries: Seq<E>, k: int, c: SinkCall<E, X>)
    requires
        wrote_accepted(calls, entries, k),
    ensures
        wrote_accepted(calls.push(c), entries, k),
        calls.len() == k && k < entries.len() && accepted_write(c, entries[k]) ==> wrote_accepted(
            calls.push(c),
            entries,
            k + 1,
        ),
{
    assert forall|i: int| 0 <= i < k implies #[trigger] calls.push(c)[i] == calls[i] by {}
    if calls.len() == k && k < entries.len() && accepted_write(c, entries[k]) {
        assert forall|i: int| 0 <= i < k + 1 implies accepted_write(#[trigger] calls.push(c)[i], entries[i]) by {
            if i < k {
                assert(calls.push(c)[i] == calls[i]);
            }
        }
    }
}

/// The calls of one poll that writes `entries`, and its result: each entry
/// is written in order; the first refused write ends the poll with the
/// sink's error and nothing after it; when every write is accepted the sink
/// is flushed once if anything was written, and the result is the number of
/// entries, or the flush's error.
pub open spec fn poll_calls<E, X>(calls: Seq<SinkCall<E, X>>, entries: Seq<E>, r: Result<usize, X>) -> bool {
    match r {
        Ok(n) => {
            &&& n == entries.len()
            &&& wrote_accepted(calls, entries, entries.len() as int)
            &&& if entries.len() > 0 {
                calls.len() == entries.len() + 1 && accepted_flush(calls.last())
            } else {
                calls.len() == 0
            }
        },
        Err(e) => {
            &&& calls.len() >= 1
            &&& wrote_accepted(calls, entries, calls.len() - 1)
            &&& {
                ||| calls.len() <= entries.len() && calls.last() == SinkCall::<E, X>::Write(
                    entries[calls.len() - 1],
                    Err(e),
                )
                ||| entries.len() > 0 && calls.len() == entries.len() + 1 && calls.last()
                    == SinkCall::<E, X>::Flush(Err(e))
            }
        },
    }
}

/// The recorder: its sink, its options, the epoch of the newest event-log
/// record already chronicled, and a record of every call made on the sink.
pub struct Recorder<E, S: EntrySink<E>> {
    sink: S,
    options: RecorderOptions,
    last_log_epoch: i64,
    calls: Ghost<Seq<SinkCall<E, S::Error>>>,
}

impl<E, S: EntrySink<E>> Recorder<E, S> {
    /// The sink that the recorder writes to.
    pub closed spec fn sink(&self) -> S {
        self.sink
    }

    /// The options it was made with.
    pub closed spec fn options(&self) -> RecorderOptions {
        self.options
    }

    /// Only event-log records newer than this reach the chronicle.
    pub closed spec fn last_log_epoch(&self) -> i64 {
        self.last_log_epoch
    }

    /// Every call made on the sink so far, in order, with its answer.
    pub closed spec fn calls(&self) -> Seq<SinkCall<E, S::Error>> {
        self.calls@
    }

    /// A recorder that chronicles what happens from `now_epoch_seconds` on:
    /// older event-log records are already served elsewhere, and replaying
    /// them would duplicate every event on every restart.
    pub fn new(sink: S, options: RecorderOptions, now_epoch_seconds: i64) -> (r: Self)
        ensures
            r.sink() == sink,
            r.options() == options,
            r.last_log_epoch() == now_epoch_seconds,
            r.calls() == Seq::<SinkCall<E, S::Error>>::empty(),
    {
        Recorder { sink, options, last_log_epoch: now_epoch_seconds, calls: Ghost(Seq::empty()) }
    }

    /// The delay between polls, in milliseconds.
    pub fn interval_ms(&self) -> (ms: u64)
        ensures
            ms == self.options().interval_ms,
    {
        self.options.interval_ms
    }

    /// Recovers the sink.
    pub fn into_sink(self) -> (s: S)
        ensures
            s == self.sink(),
    {
        self.sink
    }

    /// The event-log records of one read that are new since the last poll,
    /// oldest first; the epoch to compare against moves to the newest one read.
    pub fn take_fresh_log_events(&mut self, events: Vec<LogEvent>) -> (r: Vec<LogEntry>)
        ensures
            r@ == newer_reversed(events@, old(self).last_log_epoch()).map_values(|e: LogEvent| entry_of(e)),
            final(self).last_log_epoch() == newest_epoch(events@, old(self).last_log_epoch()),
            final(self).sink() == old(self).sink(),
            final(self).options() == old(self).options(),
            final(self).calls() == old(self).calls(),
    {
        let (fresh, newest) = fresh_log_events(events, self.last_log_epoch);
        self.last_log_epoch = newest;
        fresh
    }

    /// Writes the entries of one poll and returns how many were written: each
    /// entry in order, stopping at the first error; the sink is flushed once
    /// when at least one entry was written.
    pub fn write_entries(&mut self, entries: Vec<E>) -> (r: Result<usize, S::Error>)
        ensures
            old(self).calls().len() <= final(self).calls().len(),
            final(self).calls().subrange(0, old(self).calls().len() as int) == old(self).calls(),
            poll_calls(final(self).calls().skip(old(self).calls().len() as int), entries@, r),
            final(self).options() == old(self).options(),
            final(self).last_log_epoch() == old(self).last_log_epoch(),
    {
        let ghost c0 = self.calls@;
        let n = entries.len();
        let mut i: usize = 0;
        assert(self.calls@.skip(c0.len() as int) =~= Seq::<SinkCall<E, S::Error>>::empty());
        assert(self.calls@.subrange(0, c0.len() as int) =~= c0);
        while i < n
            invariant
                n == entries@.len(),
                i <= n,
                c0.len() <= self.calls@.len(),
                self.calls@.subrange(0, c0.len() as int) == c0,
                self.calls@.skip(c0.len() as int).len() == i,
                wrote_accepted(self.calls@.skip(c0.len() as int), entries@, i as int),
                self.options == old(self).options,
                self.last_log_epoch == old(self).last_log_epoch,
                c0 == old(self).calls(),
            decreases n - i,
        {
            let ghost before = self.calls@;
            let answer = self.sink.write(&entries[i]);
            self.calls = Ghost(self.calls@.push(SinkCall::Write(entries@[i as int], answer)));
            proof {
                assert(self.calls@.subrange(0, c0.len() as int) =~= c0);
                assert(self.calls@.skip(c0.len() as int) =~= before.skip(c0.len() as int).push(
                    SinkCall::Write(entries@[i as int], answer),
                ));
                lemma_wrote_push(before.skip(c0.len() as int), entries@, i as int, SinkCall::Write(entries@[i as int], answer));
            }
            match answer {
                Ok(()) => {
                    assert(wrote_accepted(self.calls@.skip(c0.len() as int), entries@, i + 1));
                },
                Err(e) => {
                    let r = Err(e);
                    assert(poll_calls(self.calls@.skip(c0.len() as int), entries@, r));
                    return r;
                },
            }
            i = i + 1;
        }
        if n > 0 {
            let ghost before = self.calls@;
            let answer = self.sink.flush();
            self.calls = Ghost(self.calls@.push(SinkCall::Flush(answer)));
            proof {
                assert(self.calls@.subrange(0, c0.len() as int) =~= c0);
                assert(self.calls@.skip(c0.len() as int) =~= before.skip(c0.len() as int).push(SinkCall::Flush(answer)));
                lemma_wrote_push(before.skip(c0.len() as int), entries@, n as int, SinkCall::Flush(answer));
            }
            if let Err(e) = answer {
                let r = Err(e);
                assert(poll_calls(self.calls@.skip(c0.len() as int), entries@, r));
                return r;
            }
            assert(accepted_flush(self.calls@.skip(c0.len() as int).last()));
        }
        let r = Ok(n);
        assert(poll_calls(self.calls@.skip(c0.len() as int), entries@, r));
        r
    }
}

} // verus!
