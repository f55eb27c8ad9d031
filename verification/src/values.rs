//! The ranked result: from a run of snapshots to the utilization series of
//! the processes that consumed the most CPU.

use vstd::prelude::*;
use crate::error::DerivationError;
use crate::ranking::{
    cap, capped, descending, lemma_capped_front, lemma_ranked_descending, lemma_ranked_holds,
    lemma_ranked_members, rank, ranked, series_view,
};
use crate::series::{
    lemma_shares_within_capacity, lemma_strictly_rising_rises, lemma_walk_shares_valid, rising,
    shares_valid, shares_within, utilization, utilization_of, within_capacity, EndEntry,
    Utilization,
};
use crate::snapshot::{elapsed, in_time_order, seconds_between, snapshots_view, Processes, Snapshot};
use crate::timeline::{
    lemma_record_snapshots_settled, timelines, timelines_fit, timelines_of,
    timelines_view, ProcessEntry, Timeline,
};

verus! {

/// The ranked utilization series of a run of snapshots.
#[derive(Debug, Clone)]
pub struct EndEntries {
    /// Seconds from the first snapshot to the last; at least one.
    pub collection_time: u64,
    /// The series, largest total first.
    pub end_entries: Vec<EndEntry>,
}

/// The mathematical value of a ranked result.
pub struct Ranking {
    pub collection_time: nat,
    pub end_entries: Seq<Utilization>,
}

impl View for EndEntries {
    type V = Ranking;

    open spec fn view(&self) -> Ranking {
        Ranking {
            collection_time: self.collection_time as nat,
            end_entries: series_view(self.end_entries@),
        }
    }
}

/// Seconds from the first snapshot to the last, or one when there are none.
pub open spec fn window(snapshots: Seq<Snapshot>) -> nat {
    let span = elapsed(snapshots[0].time, snapshots.last().time);
    if span > 0 {
        span
    } else {
        1
    }
}

/// The utilization series of every timeline, in the timelines' order.
pub open spec fn series_of(timelines: Seq<Timeline>, ticks_per_second: nat) -> Seq<Utilization> {
    Seq::new(
        timelines.len(),
        |i: int| utilization_of(timelines[i].name, timelines[i].samples, ticks_per_second),
    )
}

/// Every total fits in 64 bits.
pub open spec fn totals_fit(series: Seq<Utilization>) -> bool {
    forall|i: int| 0 <= i < series.len() ==> (#[trigger] series[i]).total_cpu_time <= u64::MAX
}

/// Every merged tick count and every total of the run fits in 64 bits.
pub open spec fn derivation_fits(snapshots: Seq<Snapshot>, ticks_per_second: nat) -> bool {
    &&& timelines_fit(timelines_of(snapshots))
    &&& totals_fit(series_of(timelines_of(snapshots), ticks_per_second))
}

/// The ranked result of a run of snapshots.
pub open spec fn derive(snapshots: Seq<Snapshot>, ticks_per_second: nat) -> Ranking {
    Ranking {
        collection_time: window(snapshots),
        end_entries: capped(ranked(series_of(timelines_of(snapshots), ticks_per_second))),
    }
}

/// What a derivation gives: no data without a snapshot, an overflow where
/// a tick count or a total does not fit, the ranked result otherwise.
pub open spec fn derived(snapshots: Seq<Snapshot>, ticks_per_second: nat) -> Result<
    Ranking,
    DerivationError,
> {
    if snapshots.len() == 0 {
        Err(DerivationError::NoData)
    } else if !derivation_fits(snapshots, ticks_per_second) {
        Err(DerivationError::Overflow)
    } else {
        Ok(derive(snapshots, ticks_per_second))
    }
}

/// The ranked result is ranked: no series has a larger total than one
/// before it, a run of more than sixteen process names gives fifteen series
/// and a shorter one gives a series for each name, and the window is at
/// least a second.
pub proof fn lemma_derive_is_ranked(snapshots: Seq<Snapshot>, ticks_per_second: nat)
    ensures
        descending(derive(snapshots, ticks_per_second).end_entries),
        derive(snapshots, ticks_per_second).end_entries.len() == if timelines_of(snapshots).len()
            > 16 {
            15
        } else {
            timelines_of(snapshots).len()
        },
        derive(snapshots, ticks_per_second).collection_time >= 1,
{
    let series = series_of(timelines_of(snapshots), ticks_per_second);
    lemma_ranked_descending(series);
    lemma_ranked_holds(series);
    lemma_capped_front(ranked(series));
    let kept = capped(ranked(series));
    assert forall|i: int, j: int| 0 <= i <= j < kept.len() implies (
    #[trigger] kept[i]).total_cpu_time >= (#[trigger] kept[j]).total_cpu_time by {
        assert(ranked(series)[i].total_cpu_time >= ranked(series)[j].total_cpu_time);
    }
}

/// With snapshots in time order and a positive tick rate, every share of
/// the ranked result is a fraction with a positive denominator and a
/// numerator that is not negative.
pub proof fn lemma_derive_shares_valid(snapshots: Seq<Snapshot>, ticks_per_second: nat)
    requires
        in_time_order(snapshots),
        ticks_per_second > 0,
    ensures
        forall|place: int|
            0 <= place < derive(snapshots, ticks_per_second).end_entries.len() ==> shares_valid(
                (#[trigger] derive(snapshots, ticks_per_second).end_entries[place]).entries,
            ),
{
    let timelines = timelines_of(snapshots);
    let series = series_of(timelines, ticks_per_second);
    let kept = derive(snapshots, ticks_per_second).end_entries;
    lemma_capped_front(ranked(series));
    assert forall|place: int| 0 <= place < kept.len() implies shares_valid(
        (#[trigger] kept[place]).entries,
    ) by {
        lemma_ranked_members(series, place);
        let found = ranked(series)[place];
        let from = choose|from: int| 0 <= from < series.len() && series[from] == found;
        lemma_record_snapshots_settled(snapshots, snapshots[0].time);
        lemma_strictly_rising_rises(timelines[from].samples);
        lemma_walk_shares_valid(timelines[from].samples, ticks_per_second);
    }
}

/// With snapshots in time order and a positive tick rate, where no process
/// name consumed more between two of its points than `cores` fully used
/// cores count in that time, every share of the ranked result lies between
/// zero and a hundred percent of that many cores.
pub proof fn lemma_derive_shares_within_capacity(
    snapshots: Seq<Snapshot>,
    ticks_per_second: nat,
    cores: nat,
)
    requires
        in_time_order(snapshots),
        ticks_per_second > 0,
        forall|i: int|
            0 <= i < timelines_of(snapshots).len() ==> within_capacity(
                (#[trigger] timelines_of(snapshots)[i]).samples,
                ticks_per_second,
                cores,
            ),
    ensures
        forall|place: int|
            0 <= place < derive(snapshots, ticks_per_second).end_entries.len() ==> shares_within(
                (#[trigger] derive(snapshots, ticks_per_second).end_entries[place]).entries,
                cores,
            ),
{
    let timelines = timelines_of(snapshots);
    let series = series_of(timelines, ticks_per_second);
    let kept = derive(snapshots, ticks_per_second).end_entries;
    lemma_capped_front(ranked(series));
    assert forall|place: int| 0 <= place < kept.len() implies shares_within(
        (#[trigger] kept[place]).entries,
        cores,
    ) by {
        lemma_ranked_members(series, place);
        let found = ranked(series)[place];
        let from = choose|from: int| 0 <= from < series.len() && series[from] == found;
        lemma_record_snapshots_settled(snapshots, snapshots[0].time);
        assert(within_capacity(timelines[from].samples, ticks_per_second, cores));
        lemma_shares_within_capacity(timelines[from].samples, ticks_per_second, cores);
    }
}

/// Derives the utilization series of every timeline.
///
/// Fails exactly when the total of some timeline does not fit in 64 bits.
pub fn derive_series(entries: &Vec<ProcessEntry>, ticks_per_second: u64) -> (derived: Result<
    Vec<EndEntry>,
    DerivationError,
>)
    requires
        ticks_per_second > 0,
        forall|i: int| 0 <= i < entries.len() ==> rising((#[trigger] entries[i])@.samples),
    ensures
        derived is Ok <==> totals_fit(series_of(timelines_view(entries@), ticks_per_second as nat)),
        derived matches Ok(series) ==> series_view(series@) == series_of(
            timelines_view(entries@),
            ticks_per_second as nat,
        ),
        derived matches Err(error) ==> error == DerivationError::Overflow,
{
    let ghost wanted = series_of(timelines_view(entries@), ticks_per_second as nat);
    let mut series: Vec<EndEntry> = Vec::new();
    let mut at: usize = 0;
    while at < entries.len()
        invariant
            at <= entries.len(),
            ticks_per_second > 0,
            forall|i: int| 0 <= i < entries.len() ==> rising((#[trigger] entries[i])@.samples),
            wanted == series_of(timelines_view(entries@), ticks_per_second as nat),
            wanted.len() == entries.len(),
            series.len() == at,
            series_view(series@) == wanted.take(at as int),
            totals_fit(wanted.take(at as int)),
        decreases entries.len() - at,
    {
        match utilization(&entries[at], ticks_per_second) {
            Ok(entry) => {
                proof {
                    assert(entry@ == wanted[at as int]);
                    let longer = series_view(series@.push(entry));
                    assert forall|i: int| 0 <= i < at + 1 implies longer[i] == wanted.take(
                        at + 1,
                    )[i] by {
                        if i < at {
                            assert(series_view(series@)[i] == wanted.take(at as int)[i]);
                            assert(series@.push(entry)[i] == series@[i]);
                        }
                    }
                    assert(longer =~= wanted.take(at + 1));
                    assert forall|i: int| 0 <= i < at + 1 implies (#[trigger] wanted.take(
                        at + 1,
                    )[i]).total_cpu_time <= u64::MAX by {
                        if i < at {
                            assert(wanted.take(at as int)[i].total_cpu_time <= u64::MAX);
                        }
                    }
                }
                series.push(entry);
            },
            Err(error) => {
                proof {
                    assert(wanted[at as int].total_cpu_time > u64::MAX);
                }
                return Err(error);
            },
        }
        at += 1;
    }
    proof {
        assert(wanted.take(at as int) =~= wanted);
    }
    Ok(series)
}

/// Derives the ranked utilization series of a run of snapshots.
///
/// The snapshots must be in time order and the tick rate positive. Fails
/// with `NoData` exactly when there is no snapshot, and with `Overflow`
/// exactly when there is one and a merged tick count or a total does not
/// fit in 64 bits.
pub fn get_values(values: Vec<Processes>, ticks_per_second: u64) -> (result: Result<
    EndEntries,
    DerivationError,
>)
    requires
        ticks_per_second > 0,
        in_time_order(snapshots_view(values@)),
    ensures
        match derived(snapshots_view(values@), ticks_per_second as nat) {
            Ok(ranking) => result matches Ok(held) && held@ == ranking,
            Err(error) => result == Err::<EndEntries, DerivationError>(error),
        },
{
    let ghost snapshots = snapshots_view(values@);
    if values.len() == 0 {
        return Err(DerivationError::NoData);
    }
    let span = seconds_between(values[0].time, values[values.len() - 1].time);
    let collection_time = if span > 0 {
        span
    } else {
        1
    };
    proof {
        assert(snapshots[0] == values[0]@);
        assert(snapshots.last() == values[values.len() - 1]@);
    }
    let entries = match timelines(&values) {
        Ok(entries) => entries,
        Err(error) => {
            return Err(error);
        },
    };
    proof {
        lemma_record_snapshots_settled(snapshots, snapshots[0].time);
        assert forall|i: int| 0 <= i < entries.len() implies rising(
            (#[trigger] entries[i])@.samples,
        ) by {
            assert(timelines_view(entries@)[i] == entries[i]@);
            lemma_strictly_rising_rises(timelines_of(snapshots)[i].samples);
        }
    }
    let series = match derive_series(&entries, ticks_per_second) {
        Ok(series) => series,
        Err(error) => {
            return Err(error);
        },
    };
    let mut end_entries = rank(series);
    cap(&mut end_entries);
    Ok(EndEntries { collection_time, end_entries })
}

} // verus!
