//! Utilization series: from the timeline of one process name to the CPU
//! share of each interval between consecutive points.
//!
//! The first point of a timeline is the baseline and yields no sample. Each
//! later point is compared with the last point that yielded a sample (or the
//! baseline): the tick difference, floored at zero, is added to the total,
//! and, unless no time has passed, one sample is written and the point
//! becomes the new reference.

use vstd::prelude::*;
use crate::error::DerivationError;
use crate::timeline::{points_view, strictly_rising, ProcessEntry, ProcessTime, TimePoint};

verus! {

/// A CPU share in percent, kept exact as a fraction.
#[derive(Debug, Clone, Copy, PartialEq, Eq)]
pub struct Percent {
    /// A hundred times the ticks consumed in the interval.
    pub numerator: u128,
    /// The ticks one fully used core counts in the interval; never zero.
    pub denominator: u128,
}

/// The mathematical value of a percentage: `numerator / denominator`.
pub struct Ratio {
    pub numerator: int,
    pub denominator: int,
}

impl View for Percent {
    type V = Ratio;

    open spec fn view(&self) -> Ratio {
        Ratio { numerator: self.numerator as int, denominator: self.denominator as int }
    }
}

/// The utilization of one process name over one interval.
#[derive(Debug, Clone, Copy, PartialEq, Eq)]
pub struct Sample {
    /// The CPU share over the interval that ends at `time`.
    pub cpu_time: Percent,
    /// End of the interval, in seconds since the first snapshot.
    pub time: u64,
}

/// The mathematical value of a utilization sample.
pub struct UtilizationPoint {
    pub cpu_time: Ratio,
    pub time: nat,
}

impl View for Sample {
    type V = UtilizationPoint;

    open spec fn view(&self) -> UtilizationPoint {
        UtilizationPoint { cpu_time: self.cpu_time@, time: self.time as nat }
    }
}

/// The points of a vector of utilization samples.
pub open spec fn samples_view(samples: Seq<Sample>) -> Seq<UtilizationPoint> {
    Seq::new(samples.len(), |i: int| samples[i]@)
}

/// The utilization series of one process name.
#[derive(Debug, Clone)]
pub struct EndEntry {
    pub name: String,
    /// Ticks consumed over the whole run, regressions counted as zero.
    pub total_cpu_time: u64,
    pub entries: Vec<Sample>,
}

/// The mathematical value of a utilization series.
pub struct Utilization {
    pub name: Seq<char>,
    pub total_cpu_time: nat,
    pub entries: Seq<UtilizationPoint>,
}

impl View for EndEntry {
    type V = Utilization;

    open spec fn view(&self) -> Utilization {
        Utilization {
            name: self.name@,
            total_cpu_time: self.total_cpu_time as nat,
            entries: samples_view(self.entries@),
        }
    }
}

/// Ticks consumed between two readings of a cumulative counter. A counter
/// that went backwards counts as no consumption.
pub open spec fn delta_ticks(previous: nat, current: nat) -> nat {
    if current >= previous {
        (current - previous) as nat
    } else {
        0
    }
}

/// The CPU share of `delta` ticks over `seconds` seconds, in percent of one
/// core that counts `ticks_per_second` ticks a second.
pub open spec fn cpu_percent(delta: nat, ticks_per_second: nat, seconds: int) -> Ratio {
    Ratio { numerator: delta as int * 100, denominator: ticks_per_second as int * seconds }
}

/// The state of a walk along a timeline.
pub struct Walk {
    /// The point that the next one is compared with.
    pub previous: TimePoint,
    /// Ticks consumed so far.
    pub total: nat,
    /// Samples written so far.
    pub emitted: Seq<UtilizationPoint>,
}

/// The walk after its baseline.
pub open spec fn walk_start(baseline: TimePoint) -> Walk {
    Walk { previous: baseline, total: 0, emitted: Seq::empty() }
}

/// The walk after one more point.
pub open spec fn walk_step(walk: Walk, point: TimePoint, ticks_per_second: nat) -> Walk {
    let delta = delta_ticks(walk.previous.cpu_time, point.cpu_time);
    let seconds = point.time - walk.previous.time;
    if seconds == 0 {
        Walk { total: walk.total + delta, ..walk }
    } else {
        Walk {
            previous: point,
            total: walk.total + delta,
            emitted: walk.emitted.push(
                UtilizationPoint {
                    cpu_time: cpu_percent(delta, ticks_per_second, seconds),
                    time: point.time,
                },
            ),
        }
    }
}

/// The walk along a whole timeline. An empty timeline yields nothing.
pub open spec fn walk(points: Seq<TimePoint>, ticks_per_second: nat) -> Walk
    decreases points.len(),
{
    if points.len() == 0 {
        walk_start(TimePoint { time: 0, cpu_time: 0 })
    } else if points.len() == 1 {
        walk_start(points[0])
    } else {
        walk_step(walk(points.drop_last(), ticks_per_second), points.last(), ticks_per_second)
    }
}

/// The utilization series of a timeline.
pub open spec fn utilization_of(name: Seq<char>, points: Seq<TimePoint>, ticks_per_second: nat) -> Utilization {
    let walked = walk(points, ticks_per_second);
    Utilization { name, total_cpu_time: walked.total, entries: walked.emitted }
}

/// No point is earlier than the one before it.
pub open spec fn rising(points: Seq<TimePoint>) -> bool {
    forall|i: int, j: int|
        0 <= i <= j < points.len() ==> (#[trigger] points[i]).time <= (#[trigger] points[j]).time
}

/// Every sample is a fraction with a positive denominator and a numerator
/// that is not negative.
pub open spec fn shares_valid(entries: Seq<UtilizationPoint>) -> bool {
    forall|k: int|
        0 <= k < entries.len() ==> (#[trigger] entries[k]).cpu_time.denominator > 0
            && entries[k].cpu_time.numerator >= 0
}

/// A strictly rising timeline is a rising one.
pub proof fn lemma_strictly_rising_rises(points: Seq<TimePoint>)
    requires
        strictly_rising(points),
    ensures
        rising(points),
{
    assert forall|a: int, b: int| 0 <= a <= b < points.len() implies (#[trigger] points[a]).time
        <= (#[trigger] points[b]).time by {
        if a < b {
            assert(points[a].time < points[b].time);
        }
    }
}

/// The reference point of a walk is one of the timeline's points.
pub proof fn lemma_walk_previous(points: Seq<TimePoint>, ticks_per_second: nat)
    requires
        points.len() > 0,
    ensures
        exists|i: int|
            0 <= i < points.len() && walk(points, ticks_per_second).previous == points[i],
    decreases points.len(),
{
    if points.len() == 1 {
        assert(walk(points, ticks_per_second).previous == points[0]);
    } else {
        let front = points.drop_last();
        lemma_walk_previous(front, ticks_per_second);
        let i = choose|i: int|
            0 <= i < front.len() && walk(front, ticks_per_second).previous == front[i];
        assert(front[i] == points[i]);
        let after = walk(points, ticks_per_second);
        if after.previous == points.last() {
            assert(after.previous == points[points.len() - 1]);
        } else {
            assert(after.previous == points[i]);
        }
    }
}

/// On a timeline whose offsets never fall, with a positive tick rate, every
/// sample written is a valid share.
pub proof fn lemma_walk_shares_valid(points: Seq<TimePoint>, ticks_per_second: nat)
    requires
        rising(points),
        ticks_per_second > 0,
    ensures
        shares_valid(walk(points, ticks_per_second).emitted),
    decreases points.len(),
{
    if points.len() >= 2 {
        let front = points.drop_last();
        assert forall|i: int, j: int| 0 <= i <= j < front.len() implies (#[trigger] front[i]).time
            <= (#[trigger] front[j]).time by {
            assert(points[i].time <= points[j].time);
        }
        lemma_walk_shares_valid(front, ticks_per_second);
        lemma_walk_previous(front, ticks_per_second);
        let before = walk(front, ticks_per_second);
        let i = choose|i: int| 0 <= i < front.len() && before.previous == front[i];
        assert(front[i] == points[i]);
        assert(points[i].time <= points[points.len() - 1].time);
        let seconds = points.last().time - before.previous.time;
        let after = walk(points, ticks_per_second);
        if seconds != 0 {
            assert(ticks_per_second * seconds > 0) by (nonlinear_arith)
                requires
                    ticks_per_second > 0,
                    seconds > 0,
            ;
            assert forall|k: int| 0 <= k < after.emitted.len() implies (
            #[trigger] after.emitted[k]).cpu_time.denominator > 0
                && after.emitted[k].cpu_time.numerator >= 0 by {
                if k < before.emitted.len() {
                    assert(after.emitted[k] == before.emitted[k]);
                }
            }
        }
    }
}

/// The total of a walk never falls as the walk goes on.
pub proof fn lemma_walk_total_rises(points: Seq<TimePoint>, ticks_per_second: nat, count: int)
    requires
        0 <= count <= points.len(),
    ensures
        walk(points.take(count), ticks_per_second).total <= walk(points, ticks_per_second).total,
    decreases points.len(),
{
    if count == points.len() {
        assert(points.take(count) =~= points);
    } else {
        let front = points.drop_last();
        assert(front.take(count) =~= points.take(count));
        lemma_walk_total_rises(front, ticks_per_second, count);
    }
}

/// A counter that went backwards adds nothing: the total stays as it was,
/// and a sample written for the step is a share of zero.
pub proof fn lemma_regression_counts_nothing(walk: Walk, point: TimePoint, ticks_per_second: nat)
    requires
        point.cpu_time < walk.previous.cpu_time,
    ensures
        delta_ticks(walk.previous.cpu_time, point.cpu_time) == 0,
        walk_step(walk, point, ticks_per_second).total == walk.total,
        point.time != walk.previous.time ==> walk_step(
            walk,
            point,
            ticks_per_second,
        ).emitted.last().cpu_time.numerator == 0,
{
}

/// A point at the offset of the point before it yields no sample and does
/// not become the reference, but its ticks still count towards the total.
pub proof fn lemma_no_time_no_sample(walk: Walk, point: TimePoint, ticks_per_second: nat)
    requires
        point.time == walk.previous.time,
    ensures
        walk_step(walk, point, ticks_per_second).emitted == walk.emitted,
        walk_step(walk, point, ticks_per_second).previous == walk.previous,
        walk_step(walk, point, ticks_per_second).total == walk.total + delta_ticks(
            walk.previous.cpu_time,
            point.cpu_time,
        ),
{
}

/// The ticks consumed along a timeline: the tick differences between
/// consecutive points, each floored at zero, added up.
pub open spec fn consumed(points: Seq<TimePoint>) -> nat
    decreases points.len(),
{
    if points.len() <= 1 {
        0
    } else {
        consumed(points.drop_last()) + delta_ticks(
            points[points.len() - 2].cpu_time,
            points.last().cpu_time,
        )
    }
}

/// The share of the interval that ends at point `place` of a timeline.
pub open spec fn share_at(points: Seq<TimePoint>, ticks_per_second: nat, place: int) -> UtilizationPoint {
    UtilizationPoint {
        cpu_time: cpu_percent(
            delta_ticks(points[place - 1].cpu_time, points[place].cpu_time),
            ticks_per_second,
            points[place].time - points[place - 1].time,
        ),
        time: points[place].time,
    }
}

/// On a timeline with one point for each offset, each later than the one
/// before, every point but the first yields one sample: the share of the
/// interval since the point before it. The total is the ticks consumed
/// along the timeline.
pub proof fn lemma_walk_of_distinct_offsets(points: Seq<TimePoint>, ticks_per_second: nat)
    requires
        points.len() > 0,
        strictly_rising(points),
    ensures
        walk(points, ticks_per_second).previous == points.last(),
        walk(points, ticks_per_second).total == consumed(points),
        walk(points, ticks_per_second).emitted.len() == points.len() - 1,
        forall|k: int|
            0 <= k < points.len() - 1 ==> #[trigger] walk(points, ticks_per_second).emitted[k]
                == share_at(points, ticks_per_second, k + 1),
    decreases points.len(),
{
    if points.len() >= 2 {
        let front = points.drop_last();
        assert forall|i: int, j: int| 0 <= i < j < front.len() implies (#[trigger] front[i]).time
            < (#[trigger] front[j]).time by {
            assert(points[i].time < points[j].time);
        }
        lemma_walk_of_distinct_offsets(front, ticks_per_second);
        let before = walk(front, ticks_per_second);
        let after = walk(points, ticks_per_second);
        let last = points.len() - 1;
        assert(before.previous == points[last - 1]);
        assert(points[last - 1].time < points[last].time);
        assert forall|k: int| 0 <= k < points.len() - 1 implies #[trigger] after.emitted[k]
            == share_at(points, ticks_per_second, k + 1) by {
            if k < before.emitted.len() {
                assert(after.emitted[k] == before.emitted[k]);
                assert(front[k] == points[k]);
                assert(front[k + 1] == points[k + 1]);
            }
        }
    }
}

/// Between any two consecutive points the process consumed no more ticks
/// than `cores` fully used cores count in that time.
pub open spec fn within_capacity(points: Seq<TimePoint>, ticks_per_second: nat, cores: nat) -> bool {
    forall|i: int|
        0 < i < points.len() ==> delta_ticks(points[i - 1].cpu_time, (#[trigger] points[i]).cpu_time)
            <= cores * ticks_per_second * (points[i].time - points[i - 1].time)
}

/// Every share lies between zero and a hundred percent of `cores` cores.
pub open spec fn shares_within(entries: Seq<UtilizationPoint>, cores: nat) -> bool {
    forall|k: int|
        0 <= k < entries.len() ==> {
            &&& (#[trigger] entries[k]).cpu_time.denominator > 0
            &&& 0 <= entries[k].cpu_time.numerator
            &&& entries[k].cpu_time.numerator <= 100 * cores * entries[k].cpu_time.denominator
        }
}

/// On a timeline with a point for every offset, each later than the one
/// before, every point but the first yields a sample, and where the process
/// stayed within the capacity of `cores` cores, every share lies between
/// zero and a hundred percent of that many cores.
pub proof fn lemma_shares_within_capacity(
    points: Seq<TimePoint>,
    ticks_per_second: nat,
    cores: nat,
)
    requires
        ticks_per_second > 0,
        points.len() > 0,
        strictly_rising(points),
        within_capacity(points, ticks_per_second, cores),
    ensures
        walk(points, ticks_per_second).previous == points.last(),
        walk(points, ticks_per_second).emitted.len() == points.len() - 1,
        shares_within(walk(points, ticks_per_second).emitted, cores),
    decreases points.len(),
{
    if points.len() >= 2 {
        let front = points.drop_last();
        assert forall|i: int, j: int| 0 <= i < j < front.len() implies (#[trigger] front[i]).time
            < (#[trigger] front[j]).time by {
            assert(points[i].time < points[j].time);
        }
        assert forall|i: int| 0 < i < front.len() implies delta_ticks(
            front[i - 1].cpu_time,
            (#[trigger] front[i]).cpu_time,
        ) <= cores * ticks_per_second * (front[i].time - front[i - 1].time) by {
            assert(front[i] == points[i]);
            assert(front[i - 1] == points[i - 1]);
        }
        lemma_shares_within_capacity(front, ticks_per_second, cores);
        let before = walk(front, ticks_per_second);
        let after = walk(points, ticks_per_second);
        let last = points.len() - 1;
        assert(before.previous == points[last - 1]);
        assert(points[last - 1].time < points[last].time);
        let seconds = points[last].time - points[last - 1].time;
        let delta = delta_ticks(points[last - 1].cpu_time, points[last].cpu_time);
        assert(delta <= cores * ticks_per_second * seconds);
        let share = cpu_percent(delta, ticks_per_second, seconds);
        assert(share.denominator > 0 && share.numerator <= 100 * cores * share.denominator)
            by (nonlinear_arith)
            requires
                share.numerator == delta * 100,
                share.denominator == ticks_per_second * seconds,
                delta <= cores * ticks_per_second * seconds,
                ticks_per_second > 0,
                seconds > 0,
        ;
        assert forall|k: int| 0 <= k < after.emitted.len() implies {
            &&& (#[trigger] after.emitted[k]).cpu_time.denominator > 0
            &&& 0 <= after.emitted[k].cpu_time.numerator
            &&& after.emitted[k].cpu_time.numerator <= 100 * cores
                * after.emitted[k].cpu_time.denominator
        } by {
            if k < before.emitted.len() {
                assert(after.emitted[k] == before.emitted[k]);
            }
        }
    }
}

/// Ticks consumed between two readings of a cumulative counter; zero when
/// the counter went backwards.
pub fn ticks_between(previous: u64, current: u64) -> (delta: u64)
    ensures
        delta == delta_ticks(previous as nat, current as nat),
{
    if current >= previous {
        current - previous
    } else {
        0
    }
}

/// The CPU share of `delta` ticks over `seconds` seconds.
pub fn percent_of(delta: u64, ticks_per_second: u64, seconds: u64) -> (share: Percent)
    ensures
        share@ == cpu_percent(delta as nat, ticks_per_second as nat, seconds as int),
{
    assert(delta * 100 <= u128::MAX);
    assert(ticks_per_second * seconds <= u128::MAX) by (nonlinear_arith)
        requires
            ticks_per_second <= 0xffff_ffff_ffff_ffff,
            seconds <= 0xffff_ffff_ffff_ffff,
    ;
    Percent {
        numerator: (delta as u128) * 100,
        denominator: (ticks_per_second as u128) * (seconds as u128),
    }
}

/// Derives the utilization series of one timeline.
///
/// Fails exactly when the ticks consumed over the run do not fit in 64 bits.
pub fn utilization(entry: &ProcessEntry, ticks_per_second: u64) -> (derived: Result<
    EndEntry,
    DerivationError,
>)
    requires
        ticks_per_second > 0,
        rising(entry@.samples),
    ensures
        derived is Ok <==> walk(entry@.samples, ticks_per_second as nat).total <= u64::MAX,
        derived matches Ok(series) ==> series@ == utilization_of(
            entry@.name,
            entry@.samples,
            ticks_per_second as nat,
        ) && shares_valid(series@.entries),
        derived matches Err(error) ==> error == DerivationError::Overflow,
{
    let ghost points = entry@.samples;
    let ghost rate = ticks_per_second as nat;
    let mut entries: Vec<Sample> = Vec::new();
    let mut total: u64 = 0;
    if entry.samples.len() == 0 {
        proof {
            assert(samples_view(entries@) =~= walk(points, rate).emitted);
        }
        return Ok(EndEntry { name: entry.name.clone(), total_cpu_time: total, entries });
    }
    let mut previous: ProcessTime = entry.samples[0];
    let mut at: usize = 1;
    proof {
        assert(points.take(1) =~= seq![points[0]]);
        assert(samples_view(entries@) =~= walk(points.take(1), rate).emitted);
    }
    while at < entry.samples.len()
        invariant
            1 <= at <= entry.samples.len(),
            points == entry@.samples,
            rate == ticks_per_second as nat,
            rising(points),
            exists|i: int| 0 <= i < at && previous@ == points[i],
            walk(points.take(at as int), rate) == (Walk {
                previous: previous@,
                total: total as nat,
                emitted: samples_view(entries@),
            }),
        decreases entry.samples.len() - at,
    {
        let point = entry.samples[at];
        let ghost before = walk(points.take(at as int), rate);
        let ghost next = points.take(at + 1);
        proof {
            assert(next.drop_last() =~= points.take(at as int));
            assert(next.last() == point@);
            assert(points[at as int] == point@);
            let i = choose|i: int| 0 <= i < at && previous@ == points[i];
            assert(points[i].time <= points[at as int].time);
        }
        let delta = ticks_between(previous.cpu_time, point.cpu_time);
        match total.checked_add(delta) {
            Some(sum) => {
                total = sum;
            },
            None => {
                proof {
                    lemma_walk_total_rises(points, rate, at + 1);
                }
                return Err(DerivationError::Overflow);
            },
        }
        if point.time != previous.time {
            let seconds = point.time - previous.time;
            entries.push(Sample { cpu_time: percent_of(delta, ticks_per_second, seconds), time: point.time });
            previous = point;
            proof {
                assert(samples_view(entries@) =~= walk(next, rate).emitted);
            }
        }
        at += 1;
    }
    proof {
        assert(points.take(at as int) =~= points);
        lemma_walk_shares_valid(points, rate);
    }
    Ok(EndEntry { name: entry.name.clone(), total_cpu_time: total, entries })
}

} // verus!
