use processes::error::DerivationError;
use processes::ranking::{cap, rank};
use processes::series::{percent_of, ticks_between, utilization, EndEntry, Percent, Sample};
use processes::snapshot::{seconds_between, snapshots_in_time_order, Processes, SampleEntry};
use processes::timeline::{record, record_all, timelines, ProcessEntry, ProcessTime};
use processes::values::derive_series;

fn point(time: u64, cpu_time: u64) -> ProcessTime {
    ProcessTime { time, cpu_time }
}

fn timeline(name: &str, samples: Vec<ProcessTime>) -> ProcessEntry {
    ProcessEntry { name: name.to_string(), total_cpu_time: 0, samples }
}

fn series(name: &str, total_cpu_time: u64) -> EndEntry {
    EndEntry { name: name.to_string(), total_cpu_time, entries: Vec::new() }
}

fn names(entries: &Vec<EndEntry>) -> Vec<&str> {
    entries.iter().map(|entry| entry.name.as_str()).collect()
}

#[test]
fn a_counter_that_went_backwards_consumed_nothing() {
    assert_eq!(ticks_between(500, 300), 0);
    assert_eq!(ticks_between(300, 500), 200);
    assert_eq!(ticks_between(7, 7), 0);
    assert_eq!(ticks_between(0, u64::MAX), u64::MAX);
    assert_eq!(ticks_between(u64::MAX, 0), 0);
}

#[test]
fn a_share_is_a_hundred_times_the_ticks_over_the_capacity() {
    assert_eq!(percent_of(200, 100, 2), Percent { numerator: 20_000, denominator: 200 });
    assert_eq!(percent_of(0, 100, 1), Percent { numerator: 0, denominator: 100 });
    assert_eq!(
        percent_of(u64::MAX, u64::MAX, u64::MAX),
        Percent {
            numerator: u64::MAX as u128 * 100,
            denominator: u64::MAX as u128 * u64::MAX as u128,
        }
    );
}

#[test]
fn the_first_point_is_the_baseline() {
    let derived = utilization(&timeline("a", vec![point(0, 200), point(2, 400)]), 100).unwrap();
    assert_eq!(derived.name, "a");
    assert_eq!(derived.total_cpu_time, 200);
    assert_eq!(
        derived.entries,
        vec![Sample { cpu_time: Percent { numerator: 20_000, denominator: 200 }, time: 2 }]
    );
}

#[test]
fn an_empty_timeline_gives_an_empty_series() {
    let derived = utilization(&timeline("a", Vec::new()), 100).unwrap();
    assert_eq!(derived.total_cpu_time, 0);
    assert!(derived.entries.is_empty());
}

#[test]
fn a_regression_gives_a_share_of_zero_and_adds_nothing() {
    let derived = utilization(&timeline("a", vec![point(0, 500), point(1, 300), point(2, 350)]), 100).unwrap();
    assert_eq!(derived.total_cpu_time, 50);
    assert_eq!(
        derived.entries,
        vec![
            Sample { cpu_time: Percent { numerator: 0, denominator: 100 }, time: 1 },
            Sample { cpu_time: Percent { numerator: 5_000, denominator: 100 }, time: 2 },
        ]
    );
}

#[test]
fn a_point_at_the_offset_of_its_reference_counts_but_gives_no_sample() {
    let points = vec![point(0, 100), point(0, 130), point(4, 150), point(4, 190), point(5, 200)];
    let derived = utilization(&timeline("a", points), 10).unwrap();
    // 30 against the baseline, 50 against the baseline, 40 and 50 against the point at 4
    assert_eq!(derived.total_cpu_time, 30 + 50 + 40 + 50);
    assert_eq!(
        derived.entries,
        vec![
            Sample { cpu_time: Percent { numerator: 5_000, denominator: 40 }, time: 4 },
            Sample { cpu_time: Percent { numerator: 5_000, denominator: 10 }, time: 5 },
        ]
    );
}

#[test]
fn a_total_that_does_not_fit_fails_the_series() {
    let points = vec![point(0, 0), point(1, u64::MAX), point(2, 0), point(3, 1)];
    assert_eq!(utilization(&timeline("a", points), 100).unwrap_err(), DerivationError::Overflow);
    let fine = timeline("b", vec![point(0, 0), point(1, 5)]);
    let bad = timeline("a", vec![point(0, 0), point(1, u64::MAX), point(2, 0), point(3, 1)]);
    assert_eq!(derive_series(&vec![fine, bad], 100).unwrap_err(), DerivationError::Overflow);
}

#[test]
fn every_timeline_gets_its_series() {
    let all = vec![timeline("a", vec![point(0, 0), point(1, 5)]), timeline("b", vec![point(1, 9)])];
    let derived = derive_series(&all, 100).unwrap();
    assert_eq!(names(&derived), vec!["a", "b"]);
    assert_eq!(derived[0].total_cpu_time, 5);
    assert_eq!(derived[1].total_cpu_time, 0);
}

#[test]
fn a_sample_is_added_to_the_point_at_its_offset() {
    let mut entries = vec![timeline("a", vec![point(0, 10)])];
    assert_eq!(record(&mut entries, &"a".to_string(), 0, 5), Ok(()));
    assert_eq!(entries[0].samples, vec![point(0, 15)]);
    assert_eq!(record(&mut entries, &"a".to_string(), 3, 7), Ok(()));
    assert_eq!(entries[0].samples, vec![point(0, 15), point(3, 7)]);
    assert_eq!(record(&mut entries, &"b".to_string(), 3, 1), Ok(()));
    assert_eq!(entries.len(), 2);
    assert_eq!(entries[1].name, "b");
    assert_eq!(entries[1].total_cpu_time, 0);
    assert_eq!(entries[1].samples, vec![point(3, 1)]);
}

#[test]
fn a_merge_that_does_not_fit_leaves_the_timelines_alone() {
    let mut entries = vec![timeline("a", vec![point(0, u64::MAX)])];
    assert_eq!(record(&mut entries, &"a".to_string(), 0, 1), Err(DerivationError::Overflow));
    assert_eq!(entries.len(), 1);
    assert_eq!(entries[0].samples, vec![point(0, u64::MAX)]);
    assert_eq!(record(&mut entries, &"a".to_string(), 0, 0), Ok(()));
}

#[test]
fn the_samples_of_a_snapshot_are_merged_in_order() {
    let mut entries = Vec::new();
    let samples = vec![
        SampleEntry { name: "a".to_string(), pid: 1, cpu_time: 3 },
        SampleEntry { name: "b".to_string(), pid: 2, cpu_time: 4 },
        SampleEntry { name: "a".to_string(), pid: 3, cpu_time: 5 },
    ];
    assert_eq!(record_all(&mut entries, &samples, 9), Ok(()));
    assert_eq!(entries.len(), 2);
    assert_eq!(entries[0].name, "a");
    assert_eq!(entries[0].samples, vec![point(9, 8)]);
    assert_eq!(entries[1].name, "b");
    assert_eq!(entries[1].samples, vec![point(9, 4)]);
}

#[test]
fn offsets_count_from_the_first_snapshot() {
    let values = vec![
        Processes { time: 100, entries: vec![SampleEntry { name: "a".to_string(), pid: 1, cpu_time: 3 }] },
        Processes { time: 104, entries: vec![SampleEntry { name: "a".to_string(), pid: 1, cpu_time: 9 }] },
    ];
    let built = timelines(&values).unwrap();
    assert_eq!(built.len(), 1);
    assert_eq!(built[0].samples, vec![point(0, 3), point(4, 9)]);
    assert!(timelines(&Vec::new()).unwrap().is_empty());
}

#[test]
fn seconds_are_counted_forwards_only() {
    assert_eq!(seconds_between(10, 12), 2);
    assert_eq!(seconds_between(12, 12), 0);
    assert_eq!(seconds_between(12, 10), 0);
    assert_eq!(seconds_between(-5, 5), 10);
    assert_eq!(seconds_between(i64::MIN, i64::MAX), u64::MAX);
}

#[test]
fn time_order_allows_equal_times() {
    let at = |time: i64| Processes { time, entries: Vec::new() };
    assert!(snapshots_in_time_order(&Vec::new()));
    assert!(snapshots_in_time_order(&vec![at(3)]));
    assert!(snapshots_in_time_order(&vec![at(1), at(1), at(2)]));
    assert!(!snapshots_in_time_order(&vec![at(1), at(3), at(2)]));
    assert!(!snapshots_in_time_order(&vec![at(2), at(1)]));
}

#[test]
fn ranking_is_descending_and_stable() {
    let ranked = rank(vec![
        series("a", 5),
        series("b", 9),
        series("c", 5),
        series("d", 0),
        series("e", 9),
        series("f", 5),
    ]);
    assert_eq!(names(&ranked), vec!["b", "e", "a", "c", "f", "d"]);
    assert!(rank(Vec::new()).is_empty());
}

#[test]
fn ranking_keeps_every_series() {
    let ranked = rank((0..40).map(|i| series(&format!("p{}", i), (i * 7) % 11)).collect());
    assert_eq!(ranked.len(), 40);
    for pair in ranked.windows(2) {
        assert!(pair[0].total_cpu_time >= pair[1].total_cpu_time);
    }
    let mut seen: Vec<&str> = names(&ranked);
    seen.sort();
    seen.dedup();
    assert_eq!(seen.len(), 40);
}

#[test]
fn the_cut_keeps_fifteen_of_more_than_sixteen() {
    for count in [0usize, 1, 15, 16] {
        let mut entries: Vec<EndEntry> = (0..count).map(|i| series(&format!("p{}", i), 0)).collect();
        cap(&mut entries);
        assert_eq!(entries.len(), count);
    }
    for count in [17usize, 20, 100] {
        let mut entries: Vec<EndEntry> = (0..count).map(|i| series(&format!("p{}", i), 0)).collect();
        cap(&mut entries);
        assert_eq!(entries.len(), 15);
        assert_eq!(entries[0].name, "p0");
        assert_eq!(entries[14].name, "p14");
    }
}

#[test]
fn shares_stay_within_the_capacity_of_the_cores() {
    // Four cores at 100 ticks a second give at most 400 ticks a second.
    let points = vec![point(0, 0), point(1, 400), point(3, 1_000), point(4, 1_001), point(9, 3_001)];
    let derived = utilization(&timeline("a", points), 100).unwrap();
    assert_eq!(derived.entries.len(), 4);
    assert_eq!(derived.total_cpu_time, 3_001);
    for sample in &derived.entries {
        assert!(sample.cpu_time.denominator > 0);
        assert!(sample.cpu_time.numerator <= 100 * 4 * sample.cpu_time.denominator);
    }
    assert_eq!(derived.entries[0].cpu_time, Percent { numerator: 40_000, denominator: 100 });
    assert_eq!(derived.entries[3].cpu_time, Percent { numerator: 200_000, denominator: 500 });
}
