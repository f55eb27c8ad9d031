//! The sampler: from the processes read at one instant to the text of a
//! snapshot.
//!
//! Reading the operating system is left to the caller, who hands over what
//! each process gave: its statistics, or nothing when the process had gone
//! by the time it was read. A process that has gone is skipped.

use vstd::prelude::*;
use crate::clock::now;
use crate::error::CollectionError;
use crate::record::{encode, encoded};
use crate::snapshot::{records_view, SampleEntry, SampleRecord};

verus! {

/// What reading one process gave.
#[derive(Debug, Clone, PartialEq, Eq)]
pub enum ProcessRead {
    /// The statistics of the process.
    Stat { name: String, pid: u64, utime: u64, stime: u64 },
    /// The process had exited before it could be read.
    Vanished,
}

/// The mathematical value of what reading one process gave.
pub enum Reading {
    Stat { name: Seq<char>, pid: u64, utime: u64, stime: u64 },
    Vanished,
}

impl View for ProcessRead {
    type V = Reading;

    open spec fn view(&self) -> Reading {
        match *self {
            ProcessRead::Stat { name, pid, utime, stime } => Reading::Stat {
                name: name@,
                pid,
                utime,
                stime,
            },
            ProcessRead::Vanished => Reading::Vanished,
        }
    }
}

/// The readings of a vector of process reads.
pub open spec fn readings_view(reads: Seq<ProcessRead>) -> Seq<Reading> {
    Seq::new(reads.len(), |i: int| reads[i]@)
}

/// The readings of a listing, if the processes could be listed.
pub open spec fn listing_view(listing: Option<Vec<ProcessRead>>) -> Option<Seq<Reading>> {
    match listing {
        Some(reads) => Some(readings_view(reads@)),
        None => None,
    }
}

/// The user and system ticks of every process read add up within 64 bits.
pub open spec fn ticks_fit(readings: Seq<Reading>) -> bool {
    forall|i: int|
        0 <= i < readings.len() ==> (#[trigger] readings[i] matches Reading::Stat {
            utime,
            stime,
            ..
        } ==> utime + stime <= u64::MAX)
}

/// The samples of the processes that could be read, in the order of the
/// readings. The ticks of a process are its user and system ticks together.
pub open spec fn sampled(readings: Seq<Reading>) -> Seq<SampleRecord>
    decreases readings.len(),
{
    if readings.len() == 0 {
        Seq::empty()
    } else {
        let before = sampled(readings.drop_last());
        match readings.last() {
            Reading::Stat { name, pid, utime, stime } => before.push(
                SampleRecord { name, pid, cpu_time: (utime + stime) as u64 },
            ),
            Reading::Vanished => before,
        }
    }
}

/// What a sampling tick gives: the text of the snapshot, or why there is none.
pub open spec fn collected(listing: Option<Seq<Reading>>) -> Result<Seq<char>, CollectionError> {
    match listing {
        None => Err(CollectionError::EnumerationFailed),
        Some(readings) => if ticks_fit(readings) {
            Ok(encoded(sampled(readings)))
        } else {
            Err(CollectionError::TicksOverflow)
        },
    }
}

/// The samples of the processes that could be read.
///
/// Fails exactly when the ticks of some process do not add up within 64 bits.
pub fn samples(reads: &Vec<ProcessRead>) -> (entries: Result<Vec<SampleEntry>, CollectionError>)
    ensures
        entries is Ok <==> ticks_fit(readings_view(reads@)),
        entries matches Ok(held) ==> records_view(held@) == sampled(readings_view(reads@)),
        entries matches Err(error) ==> error == CollectionError::TicksOverflow,
{
    let ghost readings = readings_view(reads@);
    let mut entries: Vec<SampleEntry> = Vec::new();
    let mut at: usize = 0;
    proof {
        assert(readings.take(0) =~= Seq::<Reading>::empty());
        assert(records_view(entries@) =~= sampled(readings.take(0)));
    }
    while at < reads.len()
        invariant
            at <= reads.len(),
            readings == readings_view(reads@),
            ticks_fit(readings.take(at as int)),
            records_view(entries@) == sampled(readings.take(at as int)),
        decreases reads.len() - at,
    {
        let ghost seen = readings.take(at as int);
        let ghost next = readings.take(at + 1);
        proof {
            assert(next.drop_last() =~= seen);
            assert(next.last() == reads[at as int]@);
            assert(readings[at as int] == reads[at as int]@);
        }
        match &reads[at] {
            ProcessRead::Stat { name, pid, utime, stime } => {
                let cpu_time = match utime.checked_add(*stime) {
                    Some(cpu_time) => cpu_time,
                    None => {
                        return Err(CollectionError::TicksOverflow);
                    },
                };
                let entry = SampleEntry { name: name.clone(), pid: *pid, cpu_time };
                proof {
                    assert(records_view(entries@.push(entry)) =~= sampled(next));
                }
                entries.push(entry);
            },
            ProcessRead::Vanished => {},
        }
        proof {
            assert forall|i: int| 0 <= i < next.len() implies (#[trigger] next[i] matches Reading::Stat {
                utime,
                stime,
                ..
            } ==> utime + stime <= u64::MAX) by {
                if i < at {
                    assert(next[i] == seen[i]);
                }
            }
        }
        at += 1;
    }
    proof {
        assert(readings.take(at as int) =~= readings);
    }
    Ok(entries)
}

/// One snapshot as the sampler stores it.
#[derive(Debug, Clone)]
pub struct ProcessesRaw {
    /// When the snapshot was taken, in seconds since the Unix epoch.
    pub time: i64,
    /// Clock ticks per second of the machine; zero until it is prepared.
    pub ticks_per_second: u64,
    /// One line per process.
    pub data: String,
}

impl ProcessesRaw {
    /// An empty snapshot, stamped with the current time, not yet prepared.
    pub fn new() -> (raw: Self)
        ensures
            raw.data@ == Seq::<char>::empty(),
            raw.ticks_per_second == 0,
    {
        Self::stamped(now())
    }

    /// An empty snapshot stamped with `time`, not yet prepared.
    pub fn stamped(time: i64) -> (raw: Self)
        ensures
            raw.time == time,
            raw.data@ == Seq::<char>::empty(),
            raw.ticks_per_second == 0,
    {
        ProcessesRaw { time, data: String::new(), ticks_per_second: 0 }
    }

    /// Whether the tick rate has been set.
    pub open spec fn prepared(&self) -> bool {
        self.ticks_per_second > 0
    }

    /// Sets the tick rate of the machine. It is set once: a sampler that is
    /// prepared keeps the rate it has.
    pub fn prepare_data_collector(&mut self, ticks_per_second: u64)
        ensures
            final(self).ticks_per_second == if old(self).prepared() {
                old(self).ticks_per_second
            } else {
                ticks_per_second
            },
            final(self).time == old(self).time,
            final(self).data == old(self).data,
    {
        if self.ticks_per_second == 0 {
            self.ticks_per_second = ticks_per_second;
        }
    }

    /// Stores the snapshot taken at `time` from what listing the processes
    /// gave: `None` when they could not be listed, else one reading for each.
    ///
    /// On failure the text is left empty.
    pub fn store_snapshot(&mut self, time: i64, listing: Option<Vec<ProcessRead>>) -> (done: Result<
        (),
        CollectionError,
    >)
        requires
            old(self).prepared(),
        ensures
            final(self).time == time,
            final(self).ticks_per_second == old(self).ticks_per_second,
            match collected(listing_view(listing)) {
                Ok(text) => done is Ok && final(self).data@ == text,
                Err(error) => done == Err::<(), CollectionError>(error) && final(self).data@
                    == Seq::<char>::empty(),
            },
    {
        self.time = time;
        self.data = String::new();
        let reads = match listing {
            Some(reads) => reads,
            None => {
                return Err(CollectionError::EnumerationFailed);
            },
        };
        let entries = match samples(&reads) {
            Ok(entries) => entries,
            Err(error) => {
                return Err(error);
            },
        };
        self.data = encode(&entries);
        Ok(())
    }

    /// Takes a snapshot now from what listing the processes gave.
    ///
    /// On failure the text is left empty.
    pub fn collect_data(&mut self, listing: Option<Vec<ProcessRead>>) -> (done: Result<
        (),
        CollectionError,
    >)
        requires
            old(self).prepared(),
        ensures
            final(self).ticks_per_second == old(self).ticks_per_second,
            match collected(listing_view(listing)) {
                Ok(text) => done is Ok && final(self).data@ == text,
                Err(error) => done == Err::<(), CollectionError>(error) && final(self).data@
                    == Seq::<char>::empty(),
            },
    {
        let time = now();
        self.store_snapshot(time, listing)
    }
}

} // verus!
