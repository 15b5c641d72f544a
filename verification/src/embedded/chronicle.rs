//! The BLE part of the event chronicle: observations and findings written to
//! a caller-supplied sink, timed by a caller-supplied clock.

use vstd::prelude::*;

use crate::ble::model::{
    finding_views, opt_chars, Advertisement, Finding, FindingView, Identity, IdentityView, Observation,
    ObservationResult, ObservationResultView, SensorContext,
};
use crate::ble::tracker::{evaluate_keys, tracker_observe, Tracker, TrackerView};

verus! {

/// A reading of the injected clock.
pub struct ClockReading {
    pub monotonic_ms: u64,
    pub unix_epoch_ms: Option<i64>,
}

/// The time source of a chronicle, supplied by the firmware.
pub trait Clock {
    fn now(&mut self) -> ClockReading;
}

/// What a chronicle entry records.
pub enum EventKind {
    BleObservation { sensor_id: String, identity: Identity, payload_hash: String, rssi_dbm: i16 },
    BleFinding { finding: Finding },
}

/// The abstract value of an [`EventKind`].
pub enum EventKindView {
    BleObservation { sensor_id: Seq<char>, identity: IdentityView, payload_hash: Seq<char>, rssi_dbm: i16 },
    BleFinding { finding: FindingView },
}

impl View for EventKind {
    type V = EventKindView;

    open spec fn view(&self) -> EventKindView {
        match self {
            EventKind::BleObservation { sensor_id, identity, payload_hash, rssi_dbm } => EventKindView::BleObservation {
                sensor_id: sensor_id@,
                identity: identity@,
                payload_hash: payload_hash@,
                rssi_dbm: *rssi_dbm,
            },
            EventKind::BleFinding { finding } => EventKindView::BleFinding { finding: finding@ },
        }
    }
}

/// One chronicle entry.
pub struct Entry {
    pub sensor_id: Option<String>,
    pub kind: EventKind,
}

/// The abstract value of an [`Entry`].
pub struct EntryView {
    pub sensor_id: Option<Seq<char>>,
    pub kind: EventKindView,
}

impl View for Entry {
    type V = EntryView;

    open spec fn view(&self) -> EntryView {
        EntryView { sensor_id: opt_chars(self.sensor_id), kind: self.kind@ }
    }
}

/// Where chronicle entries go, supplied by the firmware.
pub trait Sink {
    type Error;

    fn write(&mut self, entry: &Entry) -> Result<(), Self::Error>;
}

/// A chronicle of radio events.
pub struct Chronicle<S: Sink, C> {
    sink: S,
    clock: C,
    /// Every entry handed to the sink, in order, with whether it was accepted.
    writes: Ghost<Seq<(EntryView, bool)>>,
    /// The sink's answer to each of those entries.
    answers: Ghost<Seq<Result<(), S::Error>>>,
}

/// The entry that records one finding.
pub open spec fn finding_entry(f: FindingView) -> EntryView {
    EntryView { sensor_id: None, kind: EventKindView::BleFinding { finding: f } }
}

/// The entries that record a list of findings, in order.
pub open spec fn finding_entries(fs: Seq<FindingView>) -> Seq<EntryView> {
    fs.map_values(|f: FindingView| finding_entry(f))
}

/// The entries that record one observation: the sighting, under the sensor's
/// id, then each of its findings in order.
pub open spec fn observation_entries(
    context: SensorContext,
    advertisement: Advertisement,
    res: ObservationResultView,
) -> Seq<EntryView> {
    seq![
        EntryView {
            sensor_id: Some(context.sensor_id@),
            kind: EventKindView::BleObservation {
                sensor_id: context.sensor_id@,
                identity: res.identity,
                payload_hash: res.payload_hash,
                rssi_dbm: advertisement.rssi_dbm,
            },
        },
    ] + finding_entries(res.findings)
}

/// Whether the entries handed to the sink are `expected` written in order,
/// stopping right after the first one that the sink refused.
pub open spec fn delivered(w: Seq<(EntryView, bool)>, expected: Seq<EntryView>) -> bool {
    &&& w.len() <= expected.len()
    &&& forall|i: int| 0 <= i < w.len() ==> (#[trigger] w[i]).0 == expected[i]
    &&& forall|i: int| 0 <= i < w.len() - 1 ==> (#[trigger] w[i]).1
    &&& w.len() < expected.len() ==> w.len() > 0 && !w.last().1
}

/// Whether the sink accepted every one of these entries.
pub open spec fn all_accepted(w: Seq<(EntryView, bool)>) -> bool {
    forall|i: int| 0 <= i < w.len() ==> (#[trigger] w[i]).1
}

/// How the record of writes grows in one operation: `before` is kept, and
/// what follows it is `expected` delivered in order up to the first refusal.
pub open spec fn records(before: Seq<(EntryView, bool)>, after: Seq<(EntryView, bool)>, expected: Seq<EntryView>) -> bool {
    &&& before.len() <= after.len()
    &&& after.subrange(0, before.len() as int) == before
    &&& delivered(after.skip(before.len() as int), expected)
}

/// The tracker after one observation at some clock reading.
#[verifier::opaque]
pub open spec fn observed_at(
    t: TrackerView,
    monotonic_ms: u64,
    unix_epoch_ms: Option<i64>,
    context: SensorContext,
    advertisement: Advertisement,
) -> (TrackerView, ObservationResultView) {
    tracker_observe(
        t,
        Observation { monotonic_ms, unix_epoch_ms, context, advertisement },
    )
}

/// One observation at a clock reading: the tracker steps from `t` to `t2`,
/// and the writes grow from `before` to `after` by its entries, delivered in
/// order up to the first refusal; `ok` tells whether all were accepted.
pub open spec fn observe_outcome(
    t: TrackerView,
    t2: TrackerView,
    before: Seq<(EntryView, bool)>,
    after: Seq<(EntryView, bool)>,
    ok: bool,
    monotonic_ms: u64,
    unix_epoch_ms: Option<i64>,
    context: SensorContext,
    advertisement: Advertisement,
) -> bool {
    let (tn, res) = observed_at(t, monotonic_ms, unix_epoch_ms, context, advertisement);
    &&& t2 == tn
    &&& records(before, after, observation_entries(context, advertisement, res))
    &&& (ok <==> all_accepted(after.skip(before.len() as int)))
}

/// One evaluation at a clock reading: the tracker steps from `t` to `t2`, and
/// the writes grow from `before` to `after` by one entry per finding,
/// delivered in order up to the first refusal; `ok` tells whether all were
/// accepted.
pub open spec fn evaluate_outcome(
    t: TrackerView,
    t2: TrackerView,
    before: Seq<(EntryView, bool)>,
    after: Seq<(EntryView, bool)>,
    ok: bool,
    now: u64,
) -> bool {
    let (tn, fs) = evaluated_at(t, now);
    &&& t2 == tn
    &&& records(before, after, finding_entries(fs))
    &&& (ok <==> all_accepted(after.skip(before.len() as int)))
}

/// The tracker after evaluating its time-based rules at some clock reading.
#[verifier::opaque]
pub open spec fn evaluated_at(t: TrackerView, now: u64) -> (TrackerView, Seq<FindingView>) {
    let (d, f) = evaluate_keys(t.devices, t.policy.expected_identity_keys, t.policy, now);
    (TrackerView { devices: d, ..t }, f)
}

/// The first `n` entries of `expected` were handed to the sink after
/// `before`, and all of them were accepted.
pub open spec fn partly_written(
    before: Seq<(EntryView, bool)>,
    after: Seq<(EntryView, bool)>,
    expected: Seq<EntryView>,
    n: int,
) -> bool {
    &&& before.len() <= after.len()
    &&& after.subrange(0, before.len() as int) == before
    &&& after.skip(before.len() as int).len() == n
    &&& forall|j: int| 0 <= j < n ==> (#[trigger] after.skip(before.len() as int)[j]).0 == expected[j]
    &&& all_accepted(after.skip(before.len() as int))
}

/// The positions of the entries of one observation: the sighting first,
/// then finding `j` at `j + 1`.
proof fn lemma_observation_entries(context: SensorContext, advertisement: Advertisement, res: ObservationResultView)
    ensures
        observation_entries(context, advertisement, res).len() == res.findings.len() + 1,
        forall|j: int|
            0 <= j < res.findings.len() ==> #[trigger] observation_entries(context, advertisement, res)[j + 1]
                == finding_entry(res.findings[j]),
{
    let e = observation_entries(context, advertisement, res);
    assert forall|j: int| 0 <= j < res.findings.len() implies #[trigger] e[j + 1] == finding_entry(res.findings[j]) by {
        assert(e[j + 1] == finding_entries(res.findings)[j]);
    }
}

/// Nothing has been handed to the sink yet.
proof fn lemma_nothing_written(before: Seq<(EntryView, bool)>, expected: Seq<EntryView>)
    ensures
        partly_written(before, before, expected, 0),
{
    assert(before.subrange(0, before.len() as int) =~= before);
    assert(before.skip(before.len() as int) =~= Seq::<(EntryView, bool)>::empty());
}

/// Handing the next expected entry to the sink either continues the run or,
/// if the sink refuses it, ends it as a delivery that stopped there.
proof fn lemma_write_step(
    before: Seq<(EntryView, bool)>,
    after: Seq<(EntryView, bool)>,
    expected: Seq<EntryView>,
    n: int,
    ok: bool,
)
    requires
        partly_written(before, after, expected, n),
        0 <= n < expected.len(),
    ensures
        ok ==> partly_written(before, after.push((expected[n], ok)), expected, n + 1),
        !ok ==> records(before, after.push((expected[n], ok)), expected),
        !ok ==> !all_accepted(after.push((expected[n], ok)).skip(before.len() as int)),
{
    let a2 = after.push((expected[n], ok));
    let w = after.skip(before.len() as int);
    let w2 = a2.skip(before.len() as int);
    assert(a2.subrange(0, before.len() as int) =~= before);
    assert(w2 =~= w.push((expected[n], ok)));
    assert(w2[n] == (expected[n], ok));
    if !ok {
        assert(w2.last() == (expected[n], ok));
        assert(!all_accepted(w2));
    }
}

/// Once every expected entry has been accepted, the delivery is complete.
proof fn lemma_written_all(before: Seq<(EntryView, bool)>, after: Seq<(EntryView, bool)>, expected: Seq<EntryView>)
    requires
        partly_written(before, after, expected, expected.len() as int),
    ensures
        records(before, after, expected),
        all_accepted(after.skip(before.len() as int)),
{
}

impl<S: Sink, C> Chronicle<S, C> {
    /// The sink that the chronicle writes to.
    pub closed spec fn sink(&self) -> S {
        self.sink
    }

    /// The clock that times the chronicle's entries.
    pub closed spec fn clock(&self) -> C {
        self.clock
    }

    /// Every entry handed to the sink so far, in order, with whether the sink
    /// accepted it.
    pub closed spec fn writes(&self) -> Seq<(EntryView, bool)> {
        self.writes@
    }

    /// The sink's answer to each entry of `writes`, in the same order.
    pub closed spec fn answers(&self) -> Seq<Result<(), S::Error>> {
        self.answers@
    }
}

impl<S: Sink, C: Clock> Chronicle<S, C> {
    pub fn new(sink: S, clock: C) -> (c: Self)
        ensures
            c.sink() == sink,
            c.clock() == clock,
            c.writes() == Seq::<(EntryView, bool)>::empty(),
            c.answers() == Seq::<Result<(), S::Error>>::empty(),
    {
        Chronicle { sink, clock, writes: Ghost(Seq::empty()), answers: Ghost(Seq::empty()) }
    }

    pub fn clock_mut(&mut self) -> (c: &mut C)
        ensures
            *c == old(self).clock(),
            final(self).clock() == *final(c),
            final(self).sink() == old(self).sink(),
            final(self).writes() == old(self).writes(),
            final(self).answers() == old(self).answers(),
    {
        &mut self.clock
    }

    /// Recovers the sink.
    pub fn into_sink(self) -> (s: S)
        ensures
            s == self.sink(),
    {
        self.sink
    }

    /// Hands one entry to the sink and returns the sink's answer; the clock
    /// is left as it was.
    pub fn record(&mut self, sensor_id: Option<String>, kind: EventKind) -> (r: Result<(), S::Error>)
        ensures
            final(self).clock() == old(self).clock(),
            final(self).writes() == old(self).writes().push(
                (EntryView { sensor_id: opt_chars(sensor_id), kind: kind@ }, r is Ok),
            ),
            final(self).answers() == old(self).answers().push(r),
    {
        let entry = Entry { sensor_id, kind };
        let ghost e = entry@;
        let r = self.sink.write(&entry);
        self.writes = Ghost(self.writes@.push((e, r is Ok)));
        self.answers = Ghost(self.answers@.push(r));
        r
    }

    /// Adds one BLE advertisement to history and records the observation and
    /// every finding produced from it, stopping at the first entry that the
    /// sink refuses. Time comes from the chronicle's clock; the tracker is
    /// updated whether or not the sink accepts the entries, and the result is
    /// `Ok` exactly when it accepted all of them.
    #[verifier::rlimit(60)]
    pub fn observe_ble(
        &mut self,
        context: SensorContext,
        advertisement: Advertisement,
        tracker: &mut Tracker,
    ) -> (r: Result<ObservationResult, S::Error>)
        ensures
            exists|ms: u64, epoch: Option<i64>| {
                &&& #[trigger] observe_outcome(
                    old(tracker)@,
                    final(tracker)@,
                    old(self).writes(),
                    final(self).writes(),
                    r is Ok,
                    ms,
                    epoch,
                    context,
                    advertisement,
                )
                &&& (r matches Ok(x) ==> x@ == observed_at(old(tracker)@, ms, epoch, context, advertisement).1)
            },
            final(self).answers().len() - old(self).answers().len() == final(self).writes().len()
                - old(self).writes().len(),
            final(self).answers().subrange(0, old(self).answers().len() as int) == old(self).answers(),
            r matches Err(e) ==> final(self).answers().last() == Err::<(), S::Error>(e),
    {
        let ghost w0 = self.writes();
        let ghost a0 = self.answers();
        let reading = self.clock.now();
        let sensor_id = context.sensor_id.clone();
        let rssi_dbm = advertisement.rssi_dbm;
        let ghost ctx = context;
        let ghost adv = advertisement;
        let ghost t0 = tracker@;
        let result = tracker.observe(Observation {
            monotonic_ms: reading.monotonic_ms,
            unix_epoch_ms: reading.unix_epoch_ms,
            context,
            advertisement,
        });
        let ghost out = observed_at(t0, reading.monotonic_ms, reading.unix_epoch_ms, ctx, adv);
        assert(tracker@ == out.0 && result@ == out.1) by {
            reveal(observed_at);
        }
        let ghost expected = observation_entries(ctx, adv, out.1);
        proof {
            lemma_nothing_written(w0, expected);
            lemma_observation_entries(ctx, adv, out.1);
        }
        let ghost before = self.writes();
        let first = self.record(
            Some(sensor_id.clone()),
            EventKind::BleObservation {
                sensor_id,
                identity: result.identity.duplicate(),
                payload_hash: result.payload_hash.clone(),
                rssi_dbm,
            },
        );
        proof {
            lemma_write_step(w0, before, expected, 0, first is Ok);
            assert(self.answers().subrange(0, a0.len() as int) =~= a0);
        }
        if let Err(e) = first {
            let r = Err(e);
            assert(self.answers().subrange(0, a0.len() as int) =~= a0);
            assert(observe_outcome(old(tracker)@, tracker@, w0, self.writes(), r is Ok, reading.monotonic_ms, reading.unix_epoch_ms, ctx, adv));
            return r;
        }
        let mut i: usize = 0;
        while i < result.findings.len()
            invariant
                i <= result.findings@.len(),
                t0 == old(tracker)@,
                w0 == old(self).writes(),
                a0 == old(self).answers(),
                self.answers().len() - a0.len() == self.writes().len() - w0.len(),
                self.answers().subrange(0, a0.len() as int) == a0,
                ctx == context,
                adv == advertisement,
                out == observed_at(t0, reading.monotonic_ms, reading.unix_epoch_ms, ctx, adv),
                tracker@ == out.0,
                result@ == out.1,
                expected == observation_entries(ctx, adv, out.1),
                expected.len() == result.findings@.len() + 1,
                forall|j: int| 0 <= j < out.1.findings.len() ==> #[trigger] expected[j + 1] == finding_entry(out.1.findings[j]),
                partly_written(w0, self.writes(), expected, i + 1),
            decreases result.findings.len() - i,
        {
            let ghost before = self.writes();
            let finding = result.findings[i].duplicate();
            assert(finding@ == out.1.findings[i as int]);
            assert(expected[i + 1] == finding_entry(out.1.findings[i as int]));
            let written = self.record(None, EventKind::BleFinding { finding });
            proof {
                lemma_write_step(w0, before, expected, i + 1, written is Ok);
                assert(self.answers().subrange(0, a0.len() as int) =~= a0);
            }
            if let Err(e) = written {
                let r = Err(e);
                assert(self.answers().subrange(0, a0.len() as int) =~= a0);
                assert(observe_outcome(old(tracker)@, tracker@, w0, self.writes(), r is Ok, reading.monotonic_ms, reading.unix_epoch_ms, ctx, adv));
                return r;
            }
            i = i + 1;
        }
        proof {
            lemma_written_all(w0, self.writes(), expected);
        }
        let r = Ok(result);
        assert(observe_outcome(old(tracker)@, tracker@, w0, self.writes(), r is Ok, reading.monotonic_ms, reading.unix_epoch_ms, ctx, adv));
        r
    }

    /// Evaluates time-based BLE rules, such as an expected beacon
    /// disappearing, at the chronicle's current time, and records every
    /// finding in order, stopping at the first one that the sink refuses. The
    /// result is `Ok` exactly when the sink accepted all of them.
    pub fn evaluate_ble(&mut self, tracker: &mut Tracker) -> (r: Result<Vec<Finding>, S::Error>)
        ensures
            exists|now: u64| {
                &&& #[trigger] evaluate_outcome(
                    old(tracker)@,
                    final(tracker)@,
                    old(self).writes(),
                    final(self).writes(),
                    r is Ok,
                    now,
                )
                &&& (r matches Ok(x) ==> finding_views(x@) == evaluated_at(old(tracker)@, now).1)
            },
            final(self).answers().len() - old(self).answers().len() == final(self).writes().len()
                - old(self).writes().len(),
            final(self).answers().subrange(0, old(self).answers().len() as int) == old(self).answers(),
            r matches Err(e) ==> final(self).answers().last() == Err::<(), S::Error>(e),
    {
        let ghost w0 = self.writes();
        let ghost a0 = self.answers();
        let now_ms = self.clock.now().monotonic_ms;
        let ghost t0 = tracker@;
        let findings = tracker.evaluate(now_ms);
        let ghost out = evaluated_at(t0, now_ms);
        assert(tracker@ == out.0 && finding_views(findings@) == out.1) by {
            reveal(evaluated_at);
        }
        let ghost expected = finding_entries(out.1);
        proof {
            lemma_nothing_written(w0, expected);
            assert(self.answers().subrange(0, a0.len() as int) =~= a0);
        }
        let mut i: usize = 0;
        while i < findings.len()
            invariant
                i <= findings@.len(),
                t0 == old(tracker)@,
                w0 == old(self).writes(),
                a0 == old(self).answers(),
                self.answers().len() - a0.len() == self.writes().len() - w0.len(),
                self.answers().subrange(0, a0.len() as int) == a0,
                out == evaluated_at(t0, now_ms),
                tracker@ == out.0,
                finding_views(findings@) == out.1,
                expected == finding_entries(out.1),
                expected.len() == findings@.len(),
                partly_written(w0, self.writes(), expected, i as int),
            decreases findings.len() - i,
        {
            let ghost before = self.writes();
            let finding = findings[i].duplicate();
            assert(finding@ == out.1[i as int]);
            assert(expected[i as int] == finding_entry(out.1[i as int]));
            let written = self.record(None, EventKind::BleFinding { finding });
            proof {
                lemma_write_step(w0, before, expected, i as int, written is Ok);
                assert(self.answers().subrange(0, a0.len() as int) =~= a0);
            }
            if let Err(e) = written {
                let r = Err(e);
                assert(self.answers().subrange(0, a0.len() as int) =~= a0);
                assert(evaluate_outcome(old(tracker)@, tracker@, w0, self.writes(), r is Ok, now_ms));
                return r;
            }
            i = i + 1;
        }
        proof {
            lemma_written_all(w0, self.writes(), expected);
        }
        let r = Ok(findings);
        assert(evaluate_outcome(old(tracker)@, tracker@, w0, self.writes(), r is Ok, now_ms));
        r
    }
}

} // verus!
