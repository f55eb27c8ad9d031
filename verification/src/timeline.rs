//! Per-process timelines: cumulative ticks by offset from the first snapshot.
//!
//! Snapshots are folded in time order. A sample is merged into the timeline
//! of its process name: added to the point at the same offset when there is
//! one, appended as a new point otherwise. Because snapshots arrive in time
//! order, a point at the same offset can only be the last one.

use vstd::prelude::*;
use crate::error::DerivationError;
use crate::snapshot::{
    elapsed, in_time_order, records_view, seconds_between, snapshots_view, Processes, SampleEntry,
    SampleRecord, Snapshot,
};

verus! {

/// Cumulative ticks of one process name at one offset from the first snapshot.
#[derive(Debug, Clone, Copy, PartialEq, Eq)]
pub struct ProcessTime {
    /// Seconds since the first snapshot.
    pub time: u64,
    /// Cumulative ticks, summed over all samples of the name at this offset.
    pub cpu_time: u64,
}

/// The mathematical value of a timeline point. Tick counts are unbounded.
pub struct TimePoint {
    pub time: nat,
    pub cpu_time: nat,
}

impl View for ProcessTime {
    type V = TimePoint;

    open spec fn view(&self) -> TimePoint {
        TimePoint { time: self.time as nat, cpu_time: self.cpu_time as nat }
    }
}

/// The timeline of one process name.
#[derive(Debug, Clone)]
pub struct ProcessEntry {
    pub name: String,
    /// Not used while the timeline is built; always zero.
    pub total_cpu_time: u64,
    /// Points in the order in which their offsets were first seen.
    pub samples: Vec<ProcessTime>,
}

/// The mathematical value of a timeline.
pub struct Timeline {
    pub name: Seq<char>,
    pub total_cpu_time: nat,
    pub samples: Seq<TimePoint>,
}

/// The points of a vector of timeline points.
pub open spec fn points_view(points: Seq<ProcessTime>) -> Seq<TimePoint> {
    Seq::new(points.len(), |i: int| points[i]@)
}

impl View for ProcessEntry {
    type V = Timeline;

    open spec fn view(&self) -> Timeline {
        Timeline {
            name: self.name@,
            total_cpu_time: self.total_cpu_time as nat,
            samples: points_view(self.samples@),
        }
    }
}

/// The timelines of a vector of timelines.
pub open spec fn timelines_view(entries: Seq<ProcessEntry>) -> Seq<Timeline> {
    Seq::new(entries.len(), |i: int| entries[i]@)
}

/// `points` with `ticks` merged in at offset `time`: added to the last point
/// when that point is at `time`, appended as a new point otherwise.
pub open spec fn merge_point(points: Seq<TimePoint>, time: nat, ticks: nat) -> Seq<TimePoint> {
    if points.len() > 0 && points.last().time == time {
        points.update(
            points.len() - 1,
            TimePoint { time, cpu_time: points.last().cpu_time + ticks },
        )
    } else {
        points.push(TimePoint { time, cpu_time: ticks })
    }
}

/// The index of the first timeline named `name`, or the number of timelines
/// when there is none.
pub open spec fn position(timelines: Seq<Timeline>, name: Seq<char>) -> int
    decreases timelines.len(),
{
    if timelines.len() == 0 {
        0
    } else if timelines[0].name == name {
        0
    } else {
        1 + position(timelines.drop_first(), name)
    }
}

/// `timelines` after one sample of `name` with `ticks` at offset `time`.
pub open spec fn record_sample(
    timelines: Seq<Timeline>,
    name: Seq<char>,
    time: nat,
    ticks: nat,
) -> Seq<Timeline> {
    let at = position(timelines, name);
    if at < timelines.len() {
        timelines.update(
            at,
            Timeline { samples: merge_point(timelines[at].samples, time, ticks), ..timelines[at] },
        )
    } else {
        timelines.push(
            Timeline { name, total_cpu_time: 0, samples: seq![TimePoint { time, cpu_time: ticks }] },
        )
    }
}

/// Every tick count of the timeline fits in 64 bits.
pub open spec fn points_fit(points: Seq<TimePoint>) -> bool {
    forall|j: int| 0 <= j < points.len() ==> (#[trigger] points[j]).cpu_time <= u64::MAX
}

/// Every tick count of every timeline fits in 64 bits.
pub open spec fn timelines_fit(timelines: Seq<Timeline>) -> bool {
    forall|i: int| 0 <= i < timelines.len() ==> points_fit((#[trigger] timelines[i]).samples)
}

/// `position` is the first index at which the name occurs.
pub proof fn lemma_position(timelines: Seq<Timeline>, name: Seq<char>)
    ensures
        0 <= position(timelines, name) <= timelines.len(),
        forall|k: int|
            0 <= k < position(timelines, name) ==> (#[trigger] timelines[k]).name != name,
        position(timelines, name) < timelines.len() ==> timelines[position(
            timelines,
            name,
        )].name == name,
    decreases timelines.len(),
{
    if timelines.len() > 0 && timelines[0].name != name {
        let rest = timelines.drop_first();
        lemma_position(rest, name);
        assert forall|k: int| 0 <= k < position(timelines, name) implies (
        #[trigger] timelines[k]).name != name by {
            if k > 0 {
                assert(rest[k - 1] == timelines[k]);
            }
        }
    }
}

/// Tick counts held in machine words always fit.
pub proof fn lemma_held_timelines_fit(entries: Seq<ProcessEntry>)
    ensures
        timelines_fit(timelines_view(entries)),
{
    assert forall|i: int| 0 <= i < entries.len() implies points_fit(
        (#[trigger] timelines_view(entries)[i]).samples,
    ) by {
        assert forall|j: int| 0 <= j < entries[i].samples@.len() implies (#[trigger] points_view(
            entries[i].samples@,
        )[j]).cpu_time <= u64::MAX by {}
    }
}

/// Merges one sample into the timeline of its name.
///
/// Fails, leaving the timelines as they were, exactly when the merged tick
/// count at the sample's offset does not fit in 64 bits.
pub fn record(entries: &mut Vec<ProcessEntry>, name: &String, time: u64, ticks: u64) -> (done:
    Result<(), DerivationError>)
    ensures
        done is Ok <==> timelines_fit(
            record_sample(timelines_view(old(entries)@), name@, time as nat, ticks as nat),
        ),
        done is Ok ==> timelines_view(final(entries)@) == record_sample(
            timelines_view(old(entries)@),
            name@,
            time as nat,
            ticks as nat,
        ),
        done is Err ==> done == Err::<(), DerivationError>(DerivationError::Overflow)
            && *final(entries) == *old(entries),
{
    let ghost before = timelines_view(entries@);
    let ghost after = record_sample(before, name@, time as nat, ticks as nat);
    let mut at: usize = 0;
    while at < entries.len() && entries[at].name != *name
        invariant
            at <= entries.len(),
            *entries == *old(entries),
            forall|k: int| 0 <= k < at ==> (#[trigger] timelines_view(entries@)[k]).name != name@,
        decreases entries.len() - at,
    {
        at += 1;
    }
    proof {
        lemma_position(before, name@);
        let first = position(before, name@);
        if at < entries.len() {
            assert(before[at as int].name == name@);
        }
        if first < at {
            assert(before[first].name != name@);
        }
        assert(first == at);
    }
    if at < entries.len() {
        let count = entries[at].samples.len();
        if count > 0 && entries[at].samples[count - 1].time == time {
            let last = entries[at].samples[count - 1];
            match last.cpu_time.checked_add(ticks) {
                Some(sum) => {
                    entries[at].samples[count - 1] = ProcessTime { time, cpu_time: sum };
                    proof {
                        assert(timelines_view(entries@)[at as int].samples =~= after[at as int].samples);
                    }
                },
                None => {
                    proof {
                        assert(after[at as int].samples[count - 1].cpu_time > u64::MAX);
                    }
                    return Err(DerivationError::Overflow);
                },
            }
        } else {
            entries[at].samples.push(ProcessTime { time, cpu_time: ticks });
            proof {
                assert(timelines_view(entries@)[at as int].samples =~= after[at as int].samples);
            }
        }
    } else {
        let mut samples: Vec<ProcessTime> = Vec::new();
        samples.push(ProcessTime { time, cpu_time: ticks });
        entries.push(ProcessEntry { name: name.clone(), total_cpu_time: 0, samples });
        proof {
            assert(timelines_view(entries@)[at as int].samples =~= after[at as int].samples);
        }
    }
    proof {
        assert(timelines_view(entries@) =~~= after);
        lemma_held_timelines_fit(entries@);
    }
    Ok(())
}

/// `timelines` after every sample of `records`, in order, at offset `time`.
pub open spec fn record_entries(timelines: Seq<Timeline>, records: Seq<SampleRecord>, time: nat) -> Seq<
    Timeline,
>
    decreases records.len(),
{
    if records.len() == 0 {
        timelines
    } else {
        record_sample(
            record_entries(timelines, records.drop_last(), time),
            records.last().name,
            time,
            records.last().cpu_time as nat,
        )
    }
}

/// The timelines after every sample of `snapshots`, in order, each at its
/// snapshot's offset from `origin`.
pub open spec fn record_snapshots(snapshots: Seq<Snapshot>, origin: int) -> Seq<Timeline>
    decreases snapshots.len(),
{
    if snapshots.len() == 0 {
        Seq::empty()
    } else {
        record_entries(
            record_snapshots(snapshots.drop_last(), origin),
            snapshots.last().entries,
            elapsed(origin, snapshots.last().time),
        )
    }
}

/// The timelines of a run of snapshots; offsets count from the first one.
pub open spec fn timelines_of(snapshots: Seq<Snapshot>) -> Seq<Timeline> {
    if snapshots.len() == 0 {
        Seq::empty()
    } else {
        record_snapshots(snapshots, snapshots[0].time)
    }
}

/// Every point of `earlier` is still there in `later`, with at least as many ticks.
pub open spec fn points_grow(earlier: Seq<TimePoint>, later: Seq<TimePoint>) -> bool {
    &&& earlier.len() <= later.len()
    &&& forall|j: int|
        0 <= j < earlier.len() ==> (#[trigger] earlier[j]).cpu_time <= later[j].cpu_time
}

/// Every timeline of `earlier` is still there in `later`, and has only grown.
pub open spec fn timelines_grow(earlier: Seq<Timeline>, later: Seq<Timeline>) -> bool {
    &&& earlier.len() <= later.len()
    &&& forall|i: int|
        0 <= i < earlier.len() ==> points_grow((#[trigger] earlier[i]).samples, later[i].samples)
}

/// Growth is transitive.
pub proof fn lemma_grow_transitive(a: Seq<Timeline>, b: Seq<Timeline>, c: Seq<Timeline>)
    requires
        timelines_grow(a, b),
        timelines_grow(b, c),
    ensures
        timelines_grow(a, c),
{
    assert forall|i: int| 0 <= i < a.len() implies points_grow(
        (#[trigger] a[i]).samples,
        c[i].samples,
    ) by {
        assert(points_grow(a[i].samples, b[i].samples));
        assert(points_grow(b[i].samples, c[i].samples));
        assert forall|j: int| 0 <= j < a[i].samples.len() implies (
        #[trigger] a[i].samples[j]).cpu_time <= c[i].samples[j].cpu_time by {
            assert(a[i].samples[j].cpu_time <= b[i].samples[j].cpu_time);
            assert(b[i].samples[j].cpu_time <= c[i].samples[j].cpu_time);
        }
    }
}

/// A tick count that does not fit stays that way as the timelines grow.
pub proof fn lemma_grow_keeps_misfit(earlier: Seq<Timeline>, later: Seq<Timeline>)
    requires
        timelines_grow(earlier, later),
        !timelines_fit(earlier),
    ensures
        !timelines_fit(later),
{
    let i = choose|i: int| 0 <= i < earlier.len() && !points_fit((#[trigger] earlier[i]).samples);
    let j = choose|j: int|
        0 <= j < earlier[i].samples.len() && (#[trigger] earlier[i].samples[j]).cpu_time
            > u64::MAX;
    assert(points_grow(earlier[i].samples, later[i].samples));
    assert(earlier[i].samples[j].cpu_time <= later[i].samples[j].cpu_time);
    assert(later[i].samples[j].cpu_time > u64::MAX);
    assert(!points_fit(later[i].samples));
}

/// Recording a sample only grows the timelines.
pub proof fn lemma_record_sample_grows(
    timelines: Seq<Timeline>,
    name: Seq<char>,
    time: nat,
    ticks: nat,
)
    ensures
        timelines_grow(timelines, record_sample(timelines, name, time, ticks)),
{
    lemma_position(timelines, name);
    let after = record_sample(timelines, name, time, ticks);
    assert forall|i: int| 0 <= i < timelines.len() implies points_grow(
        (#[trigger] timelines[i]).samples,
        after[i].samples,
    ) by {}
}

/// Recording a run of samples only grows the timelines.
pub proof fn lemma_record_entries_grows(
    timelines: Seq<Timeline>,
    records: Seq<SampleRecord>,
    time: nat,
    count: int,
)
    requires
        0 <= count <= records.len(),
    ensures
        timelines_grow(
            record_entries(timelines, records.take(count), time),
            record_entries(timelines, records, time),
        ),
    decreases records.len(),
{
    if count == records.len() {
        assert(records.take(count) =~= records);
        let whole = record_entries(timelines, records, time);
        assert forall|i: int| 0 <= i < whole.len() implies points_grow(
            (#[trigger] whole[i]).samples,
            whole[i].samples,
        ) by {}
    } else {
        let front = records.drop_last();
        assert(front.take(count) =~= records.take(count));
        lemma_record_entries_grows(timelines, front, time, count);
        lemma_record_sample_grows(
            record_entries(timelines, front, time),
            records.last().name,
            time,
            records.last().cpu_time as nat,
        );
        lemma_grow_transitive(
            record_entries(timelines, records.take(count), time),
            record_entries(timelines, front, time),
            record_entries(timelines, records, time),
        );
    }
}

/// Recording a run of snapshots only grows the timelines.
pub proof fn lemma_record_snapshots_grows(snapshots: Seq<Snapshot>, origin: int, count: int)
    requires
        0 <= count <= snapshots.len(),
    ensures
        timelines_grow(
            record_snapshots(snapshots.take(count), origin),
            record_snapshots(snapshots, origin),
        ),
    decreases snapshots.len(),
{
    if count == snapshots.len() {
        assert(snapshots.take(count) =~= snapshots);
        let whole = record_snapshots(snapshots, origin);
        assert forall|i: int| 0 <= i < whole.len() implies points_grow(
            (#[trigger] whole[i]).samples,
            whole[i].samples,
        ) by {}
    } else {
        let front = snapshots.drop_last();
        assert(front.take(count) =~= snapshots.take(count));
        lemma_record_snapshots_grows(front, origin, count);
        let time = elapsed(origin, snapshots.last().time);
        let records = snapshots.last().entries;
        assert(records.take(0) =~= Seq::<SampleRecord>::empty());
        lemma_record_entries_grows(record_snapshots(front, origin), records, time, 0);
        lemma_grow_transitive(
            record_snapshots(snapshots.take(count), origin),
            record_snapshots(front, origin),
            record_snapshots(snapshots, origin),
        );
    }
}

/// Merges every sample of one snapshot, taken `time` seconds after the
/// first, into the timelines.
///
/// Fails exactly when a merged tick count does not fit in 64 bits; the
/// timelines are then left with the samples before the failing one merged in.
pub fn record_all(entries: &mut Vec<ProcessEntry>, samples: &Vec<SampleEntry>, time: u64) -> (done:
    Result<(), DerivationError>)
    ensures
        done is Ok <==> timelines_fit(
            record_entries(timelines_view(old(entries)@), records_view(samples@), time as nat),
        ),
        done is Ok ==> timelines_view(final(entries)@) == record_entries(
            timelines_view(old(entries)@),
            records_view(samples@),
            time as nat,
        ),
        done is Err ==> done == Err::<(), DerivationError>(DerivationError::Overflow),
        done is Err ==> exists|merged: int|
            0 <= merged < samples.len() && !timelines_fit(
                #[trigger] record_entries(
                    timelines_view(old(entries)@),
                    records_view(samples@).take(merged + 1),
                    time as nat,
                ),
            ) && timelines_view(final(entries)@) == record_entries(
                timelines_view(old(entries)@),
                records_view(samples@).take(merged),
                time as nat,
            ),
{
    let ghost before = timelines_view(entries@);
    let ghost records = records_view(samples@);
    let mut at: usize = 0;
    while at < samples.len()
        invariant
            at <= samples.len(),
            before == timelines_view(old(entries)@),
            records == records_view(samples@),
            timelines_view(entries@) == record_entries(before, records.take(at as int), time as nat),
        decreases samples.len() - at,
    {
        let ghost front = records.take(at as int);
        let ghost next = records.take(at + 1);
        proof {
            assert(next.drop_last() =~= front);
            assert(next.last() == samples[at as int]@);
        }
        match record(entries, &samples[at].name, time, samples[at].cpu_time) {
            Ok(()) => {},
            Err(error) => {
                proof {
                    lemma_record_entries_grows(before, records, time as nat, at + 1);
                    lemma_grow_keeps_misfit(
                        record_entries(before, next, time as nat),
                        record_entries(before, records, time as nat),
                    );
                    assert(!timelines_fit(record_entries(before, records.take(at + 1), time as nat)));
                }
                return Err(error);
            },
        }
        at += 1;
    }
    proof {
        assert(records.take(at as int) =~= records);
        lemma_held_timelines_fit(entries@);
    }
    Ok(())
}

/// Builds the timeline of every process name from a run of snapshots.
///
/// Fails exactly when a merged tick count does not fit in 64 bits.
pub fn timelines(values: &Vec<Processes>) -> (built: Result<Vec<ProcessEntry>, DerivationError>)
    ensures
        built is Ok <==> timelines_fit(timelines_of(snapshots_view(values@))),
        built matches Ok(entries) ==> timelines_view(entries@) == timelines_of(
            snapshots_view(values@),
        ),
        built matches Err(error) ==> error == DerivationError::Overflow,
{
    let mut entries: Vec<ProcessEntry> = Vec::new();
    let ghost snapshots = snapshots_view(values@);
    if values.len() == 0 {
        proof {
            assert(timelines_view(entries@) =~= timelines_of(snapshots));
        }
        return Ok(entries);
    }
    let origin = values[0].time;
    let mut at: usize = 0;
    proof {
        assert(timelines_view(entries@) =~= record_snapshots(snapshots.take(0), origin as int));
    }
    while at < values.len()
        invariant
            at <= values.len(),
            values.len() > 0,
            origin == values[0].time,
            snapshots == snapshots_view(values@),
            timelines_view(entries@) == record_snapshots(snapshots.take(at as int), origin as int),
        decreases values.len() - at,
    {
        let ghost next = snapshots.take(at + 1);
        proof {
            assert(next.drop_last() =~= snapshots.take(at as int));
            assert(next.last() == values[at as int]@);
        }
        let time = seconds_between(origin, values[at].time);
        match record_all(&mut entries, &values[at].entries, time) {
            Ok(()) => {},
            Err(error) => {
                proof {
                    lemma_record_snapshots_grows(snapshots, origin as int, at + 1);
                    lemma_grow_keeps_misfit(
                        record_snapshots(next, origin as int),
                        record_snapshots(snapshots, origin as int),
                    );
                }
                return Err(error);
            },
        }
        at += 1;
    }
    proof {
        assert(snapshots.take(at as int) =~= snapshots);
        lemma_held_timelines_fit(entries@);
    }
    Ok(entries)
}

/// Every point is later than the one before it.
pub open spec fn strictly_rising(points: Seq<TimePoint>) -> bool {
    forall|i: int, j: int|
        0 <= i < j < points.len() ==> (#[trigger] points[i]).time < (#[trigger] points[j]).time
}

/// Every timeline has a point, no timeline has two points at one offset,
/// and no point is later than `bound`.
pub open spec fn timelines_settled(timelines: Seq<Timeline>, bound: nat) -> bool {
    forall|i: int|
        0 <= i < timelines.len() ==> {
            &&& (#[trigger] timelines[i]).samples.len() > 0
            &&& strictly_rising(timelines[i].samples)
            &&& timelines[i].samples.last().time <= bound
        }
}

/// No two timelines have the same name.
pub open spec fn names_differ(timelines: Seq<Timeline>) -> bool {
    forall|i: int, j: int|
        0 <= i < j < timelines.len() ==> (#[trigger] timelines[i]).name != (
        #[trigger] timelines[j]).name
}

/// A sample no earlier than every point keeps the timelines settled and
/// their names apart.
pub proof fn lemma_record_sample_settled(
    timelines: Seq<Timeline>,
    name: Seq<char>,
    time: nat,
    ticks: nat,
    bound: nat,
)
    requires
        timelines_settled(timelines, bound),
        names_differ(timelines),
        bound <= time,
    ensures
        timelines_settled(record_sample(timelines, name, time, ticks), time),
        names_differ(record_sample(timelines, name, time, ticks)),
{
    lemma_position(timelines, name);
    let at = position(timelines, name);
    let after = record_sample(timelines, name, time, ticks);
    assert forall|i: int| 0 <= i < after.len() implies {
        &&& (#[trigger] after[i]).samples.len() > 0
        &&& strictly_rising(after[i].samples)
        &&& after[i].samples.last().time <= time
    } by {
        if i < timelines.len() {
            let old_points = timelines[i].samples;
            assert(old_points.len() > 0 && strictly_rising(old_points));
            if i == at {
                let new_points = after[i].samples;
                assert forall|a: int, b: int| 0 <= a < b < new_points.len() implies (
                #[trigger] new_points[a]).time < (#[trigger] new_points[b]).time by {
                    if b < old_points.len() {
                        assert(old_points[a].time < old_points[b].time);
                    } else {
                        assert(old_points[a].time <= old_points[old_points.len() - 1].time) by {
                            if a < old_points.len() - 1 {
                                assert(old_points[a].time < old_points[old_points.len() - 1].time);
                            }
                        }
                    }
                }
            }
        }
    }
    assert forall|i: int, j: int| 0 <= i < j < after.len() implies (#[trigger] after[i]).name != (
    #[trigger] after[j]).name by {
        if j < timelines.len() {
            assert(timelines[i].name != timelines[j].name);
        } else {
            assert(timelines[i].name != name);
        }
    }
}

/// A snapshot's samples, no earlier than every point, keep the timelines
/// settled and their names apart.
pub proof fn lemma_record_entries_settled(
    timelines: Seq<Timeline>,
    records: Seq<SampleRecord>,
    time: nat,
    bound: nat,
)
    requires
        timelines_settled(timelines, bound),
        names_differ(timelines),
        bound <= time,
    ensures
        timelines_settled(record_entries(timelines, records, time), time),
        names_differ(record_entries(timelines, records, time)),
    decreases records.len(),
{
    if records.len() == 0 {
        assert forall|i: int| 0 <= i < timelines.len() implies (
        #[trigger] timelines[i]).samples.last().time <= time by {}
    } else {
        lemma_record_entries_settled(timelines, records.drop_last(), time, bound);
        lemma_record_sample_settled(
            record_entries(timelines, records.drop_last(), time),
            records.last().name,
            time,
            records.last().cpu_time as nat,
            time,
        );
    }
}

/// Snapshots in time order, none older than `origin`, give every process
/// name one timeline, with one point for each offset at which it was seen.
pub proof fn lemma_record_snapshots_settled(snapshots: Seq<Snapshot>, origin: int)
    requires
        in_time_order(snapshots),
        snapshots.len() > 0,
        origin <= snapshots[0].time,
    ensures
        timelines_settled(
            record_snapshots(snapshots, origin),
            elapsed(origin, snapshots.last().time),
        ),
        names_differ(record_snapshots(snapshots, origin)),
    decreases snapshots.len(),
{
    let front = snapshots.drop_last();
    let time = elapsed(origin, snapshots.last().time);
    if front.len() == 0 {
        assert(record_snapshots(front, origin) =~= Seq::<Timeline>::empty());
        lemma_record_entries_settled(Seq::empty(), snapshots.last().entries, time, 0);
    } else {
        assert forall|i: int, j: int| 0 <= i <= j < front.len() implies (#[trigger] front[i]).time
            <= (#[trigger] front[j]).time by {
            assert(snapshots[i].time <= snapshots[j].time);
        }
        assert(front[0] == snapshots[0]);
        lemma_record_snapshots_settled(front, origin);
        assert(front.last() == snapshots[snapshots.len() - 2]);
        assert(snapshots[snapshots.len() - 2].time <= snapshots[snapshots.len() - 1].time);
        lemma_record_entries_settled(
            record_snapshots(front, origin),
            snapshots.last().entries,
            time,
            elapsed(origin, front.last().time),
        );
    }
}

/// The ticks that the points hold at offset `time`; zero when there is no
/// such point.
pub open spec fn point_ticks(points: Seq<TimePoint>, time: nat) -> nat
    decreases points.len(),
{
    if points.len() == 0 {
        0
    } else {
        point_ticks(points.drop_last(), time) + if points.last().time == time {
            points.last().cpu_time
        } else {
            0
        }
    }
}

/// The ticks that the timelines hold for `name` at offset `time`; zero when
/// the name has no timeline or the timeline no such point.
pub open spec fn ticks_at(timelines: Seq<Timeline>, name: Seq<char>, time: nat) -> nat {
    let at = position(timelines, name);
    if 0 <= at < timelines.len() {
        point_ticks(timelines[at].samples, time)
    } else {
        0
    }
}

/// The ticks of the samples named `name` among `records`, added up.
pub open spec fn record_ticks(records: Seq<SampleRecord>, name: Seq<char>) -> nat
    decreases records.len(),
{
    if records.len() == 0 {
        0
    } else {
        record_ticks(records.drop_last(), name) + if records.last().name == name {
            records.last().cpu_time as nat
        } else {
            0
        }
    }
}

/// The ticks of the samples named `name` in the snapshots taken `time`
/// seconds after `origin`, added up.
pub open spec fn snapshot_ticks(snapshots: Seq<Snapshot>, origin: int, name: Seq<char>, time: nat) -> nat
    decreases snapshots.len(),
{
    if snapshots.len() == 0 {
        0
    } else {
        snapshot_ticks(snapshots.drop_last(), origin, name, time) + if elapsed(
            origin,
            snapshots.last().time,
        ) == time {
            record_ticks(snapshots.last().entries, name)
        } else {
            0
        }
    }
}

/// Timelines with the same names in the same places find a name in the
/// same place.
pub proof fn lemma_position_by_names(a: Seq<Timeline>, b: Seq<Timeline>, name: Seq<char>)
    requires
        a.len() == b.len(),
        forall|i: int| 0 <= i < a.len() ==> (#[trigger] a[i]).name == b[i].name,
    ensures
        position(a, name) == position(b, name),
{
    lemma_position(a, name);
    lemma_position(b, name);
    let p = position(a, name);
    let q = position(b, name);
    if p < q {
        assert(a[p].name == b[p].name);
    } else if q < p {
        assert(a[q].name == b[q].name);
    }
}

/// Where a name is found after one more timeline is appended.
pub proof fn lemma_position_push(timelines: Seq<Timeline>, added: Timeline, name: Seq<char>)
    ensures
        position(timelines.push(added), name) == if position(timelines, name) < timelines.len() {
            position(timelines, name)
        } else if added.name == name {
            timelines.len() as int
        } else {
            timelines.len() as int + 1
        },
{
    let longer = timelines.push(added);
    lemma_position(timelines, name);
    lemma_position(longer, name);
    let p = position(timelines, name);
    let q = position(longer, name);
    if p < timelines.len() {
        assert(longer[p] == timelines[p]);
        if q < p {
            assert(longer[q] == timelines[q]);
        }
    } else {
        if q < timelines.len() {
            assert(longer[q] == timelines[q]);
        }
        if added.name == name {
            assert(longer[timelines.len() as int] == added);
        } else if q == timelines.len() {
            assert(longer[q] == added);
        }
    }
}

/// Merging ticks into the points adds them at their offset and nowhere else.
pub proof fn lemma_merge_point_ticks(points: Seq<TimePoint>, time: nat, ticks: nat, other: nat)
    ensures
        point_ticks(merge_point(points, time, ticks), other) == point_ticks(points, other) + if time
            == other {
            ticks
        } else {
            0
        },
{
    let merged = merge_point(points, time, ticks);
    assert(merged.drop_last() =~= if points.len() > 0 && points.last().time == time {
        points.drop_last()
    } else {
        points
    });
}

/// Recording a sample adds its ticks for its name at its offset and
/// nowhere else.
pub proof fn lemma_record_sample_ticks(
    timelines: Seq<Timeline>,
    name: Seq<char>,
    time: nat,
    ticks: nat,
    other_name: Seq<char>,
    other_time: nat,
)
    ensures
        ticks_at(record_sample(timelines, name, time, ticks), other_name, other_time) == ticks_at(
            timelines,
            other_name,
            other_time,
        ) + if name == other_name && time == other_time {
            ticks
        } else {
            0
        },
{
    lemma_position(timelines, name);
    lemma_position(timelines, other_name);
    let at = position(timelines, name);
    let after = record_sample(timelines, name, time, ticks);
    if at < timelines.len() {
        lemma_position_by_names(timelines, after, other_name);
        let found = position(timelines, other_name);
        if found == at {
            lemma_merge_point_ticks(timelines[at].samples, time, ticks, other_time);
        } else if name == other_name {
            assert(timelines[at].name == name);
        }
    } else {
        let added = Timeline {
            name,
            total_cpu_time: 0,
            samples: seq![TimePoint { time, cpu_time: ticks }],
        };
        lemma_position_push(timelines, added, other_name);
        if name == other_name {
            assert(added.samples.drop_last() =~= Seq::<TimePoint>::empty());
            assert(point_ticks(added.samples.drop_last(), other_time) == 0);
            assert(after[timelines.len() as int] == added);
        } else {
            let found = position(timelines, other_name);
            if found < timelines.len() {
                assert(after[found] == timelines[found]);
            }
        }
    }
}

/// Recording the samples of a snapshot adds, for each name, the ticks of
/// its samples at the snapshot's offset, and nothing else.
pub proof fn lemma_record_entries_ticks(
    timelines: Seq<Timeline>,
    records: Seq<SampleRecord>,
    time: nat,
    name: Seq<char>,
    other_time: nat,
)
    ensures
        ticks_at(record_entries(timelines, records, time), name, other_time) == ticks_at(
            timelines,
            name,
            other_time,
        ) + if time == other_time {
            record_ticks(records, name)
        } else {
            0
        },
    decreases records.len(),
{
    if records.len() > 0 {
        lemma_record_entries_ticks(timelines, records.drop_last(), time, name, other_time);
        lemma_record_sample_ticks(
            record_entries(timelines, records.drop_last(), time),
            records.last().name,
            time,
            records.last().cpu_time as nat,
            name,
            other_time,
        );
    }
}

/// The timelines hold, for each name and offset, the ticks of all samples
/// of that name taken at that offset, added up.
pub proof fn lemma_timelines_hold_sampled_ticks(
    snapshots: Seq<Snapshot>,
    origin: int,
    name: Seq<char>,
    time: nat,
)
    ensures
        ticks_at(record_snapshots(snapshots, origin), name, time) == snapshot_ticks(
            snapshots,
            origin,
            name,
            time,
        ),
    decreases snapshots.len(),
{
    if snapshots.len() > 0 {
        lemma_timelines_hold_sampled_ticks(snapshots.drop_last(), origin, name, time);
        lemma_record_entries_ticks(
            record_snapshots(snapshots.drop_last(), origin),
            snapshots.last().entries,
            elapsed(origin, snapshots.last().time),
            name,
            time,
        );
    } else {
        lemma_position(Seq::<Timeline>::empty(), name);
    }
}

} // verus!
