//! Snapshots: what the sampler saw at one instant.

use vstd::prelude::*;

verus! {

/// One process as the sampler saw it.
#[derive(Debug, Clone, PartialEq, Eq)]
pub struct SampleEntry {
    pub name: String,
    pub pid: u64,
    /// Cumulative CPU ticks of the process since it started.
    pub cpu_time: u64,
}

/// The mathematical value of a sample.
pub struct SampleRecord {
    pub name: Seq<char>,
    pub pid: u64,
    pub cpu_time: u64,
}

impl View for SampleEntry {
    type V = SampleRecord;

    open spec fn view(&self) -> SampleRecord {
        SampleRecord { name: self.name@, pid: self.pid, cpu_time: self.cpu_time }
    }
}

/// The records of a vector of samples.
pub open spec fn records_view(entries: Seq<SampleEntry>) -> Seq<SampleRecord> {
    Seq::new(entries.len(), |i: int| entries[i]@)
}

/// All processes seen at one instant.
#[derive(Debug, Clone)]
pub struct Processes {
    /// When the snapshot was taken, in seconds since the Unix epoch.
    pub time: i64,
    pub entries: Vec<SampleEntry>,
}

/// The mathematical value of a snapshot.
pub struct Snapshot {
    pub time: int,
    pub entries: Seq<SampleRecord>,
}

impl View for Processes {
    type V = Snapshot;

    open spec fn view(&self) -> Snapshot {
        Snapshot { time: self.time as int, entries: records_view(self.entries@) }
    }
}

/// The snapshots of a vector of snapshots.
pub open spec fn snapshots_view(values: Seq<Processes>) -> Seq<Snapshot> {
    Seq::new(values.len(), |i: int| values[i]@)
}

/// No snapshot is older than the one before it.
pub open spec fn in_time_order(snapshots: Seq<Snapshot>) -> bool {
    forall|i: int, j: int|
        0 <= i <= j < snapshots.len() ==> (#[trigger] snapshots[i]).time <= (
        #[trigger] snapshots[j]).time
}

/// Seconds from `origin` to `time`; zero when `time` is not later.
pub open spec fn elapsed(origin: int, time: int) -> nat {
    if time > origin {
        (time - origin) as nat
    } else {
        0
    }
}

/// Whether no snapshot is older than the one before it.
pub fn snapshots_in_time_order(values: &Vec<Processes>) -> (ordered: bool)
    ensures
        ordered == in_time_order(snapshots_view(values@)),
{
    let mut at: usize = 1;
    while at < values.len()
        invariant
            1 <= at,
            forall|i: int, j: int|
                0 <= i <= j < at && j < values.len() ==> (#[trigger] values[i]).time <= (
                #[trigger] values[j]).time,
        decreases values.len() - at,
    {
        if values[at - 1].time > values[at].time {
            proof {
                let snapshots = snapshots_view(values@);
                assert(snapshots[at - 1].time > snapshots[at as int].time);
            }
            return false;
        }
        at += 1;
    }
    proof {
        let snapshots = snapshots_view(values@);
        assert forall|i: int, j: int| 0 <= i <= j < snapshots.len() implies (
        #[trigger] snapshots[i]).time <= (#[trigger] snapshots[j]).time by {
            assert(values[i].time <= values[j].time);
        }
    }
    true
}

/// Seconds from `origin` to `time`.
pub fn seconds_between(origin: i64, time: i64) -> (seconds: u64)
    ensures
        seconds == elapsed(origin as int, time as int),
{
    if time > origin {
        let wide: i128 = time as i128 - origin as i128;
        wide as u64
    } else {
        0
    }
}

} // verus!
