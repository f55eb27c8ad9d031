use processes::error::DerivationError;
use processes::snapshot::{Processes, SampleEntry};
use processes::values::get_values;

fn sample(name: &str, pid: u64, cpu_time: u64) -> SampleEntry {
    SampleEntry { name: name.to_string(), pid, cpu_time }
}

fn snapshot(time: i64, entries: Vec<SampleEntry>) -> Processes {
    Processes { time, entries }
}

#[test]
fn two_snapshots_give_one_full_share() {
    let values = vec![
        snapshot(0, vec![sample("a", 1, 200)]),
        snapshot(2, vec![sample("a", 1, 400)]),
    ];
    let ranking = get_values(values, 100).unwrap();
    assert_eq!(ranking.collection_time, 2);
    assert_eq!(ranking.end_entries.len(), 1);
    let series = &ranking.end_entries[0];
    assert_eq!(series.name, "a");
    assert_eq!(series.total_cpu_time, 200);
    assert_eq!(series.entries.len(), 1);
    assert_eq!(series.entries[0].time, 2);
    assert_eq!(series.entries[0].cpu_time.numerator, 20_000);
    assert_eq!(series.entries[0].cpu_time.denominator, 200);
}

#[test]
fn a_counter_reset_counts_as_nothing() {
    let values = vec![
        snapshot(10, vec![sample("a", 1, 500)]),
        snapshot(11, vec![sample("a", 1, 300)]),
    ];
    let ranking = get_values(values, 100).unwrap();
    let series = &ranking.end_entries[0];
    assert_eq!(series.total_cpu_time, 0);
    assert_eq!(series.entries.len(), 1);
    assert_eq!(series.entries[0].cpu_time.numerator, 0);
    assert_eq!(series.entries[0].cpu_time.denominator, 100);
}

#[test]
fn no_snapshot_is_no_data() {
    assert_eq!(get_values(Vec::new(), 100).unwrap_err(), DerivationError::NoData);
}

#[test]
fn a_single_snapshot_gives_baselines_only() {
    let values = vec![snapshot(50, vec![sample("a", 1, 200), sample("b", 2, 10)])];
    let ranking = get_values(values, 100).unwrap();
    assert_eq!(ranking.collection_time, 1);
    assert_eq!(ranking.end_entries.len(), 2);
    assert_eq!(ranking.end_entries[0].name, "a");
    assert_eq!(ranking.end_entries[0].total_cpu_time, 0);
    assert!(ranking.end_entries[0].entries.is_empty());
    assert_eq!(ranking.end_entries[1].name, "b");
    assert!(ranking.end_entries[1].entries.is_empty());
}

#[test]
fn pids_that_share_a_name_are_merged() {
    let values = vec![
        snapshot(0, vec![sample("worker", 1, 100), sample("worker", 2, 50)]),
        snapshot(1, vec![sample("worker", 1, 130), sample("worker", 2, 70)]),
    ];
    let ranking = get_values(values, 100).unwrap();
    assert_eq!(ranking.end_entries.len(), 1);
    let series = &ranking.end_entries[0];
    assert_eq!(series.name, "worker");
    assert_eq!(series.total_cpu_time, 50);
    assert_eq!(series.entries.len(), 1);
    assert_eq!(series.entries[0].cpu_time.numerator, 5_000);
    assert_eq!(series.entries[0].cpu_time.denominator, 100);
}

#[test]
fn snapshots_at_one_instant_are_merged_into_one_point() {
    let values = vec![
        snapshot(7, vec![sample("a", 1, 100)]),
        snapshot(7, vec![sample("a", 1, 40)]),
        snapshot(9, vec![sample("a", 1, 200)]),
    ];
    let ranking = get_values(values, 10).unwrap();
    assert_eq!(ranking.collection_time, 2);
    let series = &ranking.end_entries[0];
    assert_eq!(series.total_cpu_time, 60);
    assert_eq!(series.entries.len(), 1);
    assert_eq!(series.entries[0].time, 2);
    assert_eq!(series.entries[0].cpu_time.numerator, 6_000);
    assert_eq!(series.entries[0].cpu_time.denominator, 20);
}

#[test]
fn snapshots_all_at_one_instant_give_no_sample() {
    let values = vec![
        snapshot(7, vec![sample("a", 1, 100)]),
        snapshot(7, vec![sample("a", 1, 40)]),
    ];
    let ranking = get_values(values, 10).unwrap();
    assert_eq!(ranking.collection_time, 1);
    assert_eq!(ranking.end_entries[0].total_cpu_time, 0);
    assert!(ranking.end_entries[0].entries.is_empty());
}

#[test]
fn a_share_is_kept_exact() {
    let values = vec![
        snapshot(0, vec![sample("a", 1, 0)]),
        snapshot(2, vec![sample("a", 1, 150)]),
        snapshot(5, vec![sample("a", 1, 151)]),
    ];
    let ranking = get_values(values, 100).unwrap();
    let series = &ranking.end_entries[0];
    assert_eq!(series.total_cpu_time, 151);
    assert_eq!(series.entries.len(), 2);
    // 150 ticks of 200: 75 percent
    assert_eq!(series.entries[0].cpu_time.numerator, 15_000);
    assert_eq!(series.entries[0].cpu_time.denominator, 200);
    assert_eq!(series.entries[0].time, 2);
    // 1 tick of 300: a third of a percent
    assert_eq!(series.entries[1].cpu_time.numerator, 100);
    assert_eq!(series.entries[1].cpu_time.denominator, 300);
    assert_eq!(series.entries[1].time, 5);
}

#[test]
fn a_process_seen_late_starts_its_own_baseline() {
    let values = vec![
        snapshot(0, vec![sample("a", 1, 10)]),
        snapshot(1, vec![sample("a", 1, 20), sample("b", 2, 500)]),
        snapshot(3, vec![sample("b", 2, 800)]),
    ];
    let ranking = get_values(values, 100).unwrap();
    assert_eq!(ranking.collection_time, 3);
    assert_eq!(ranking.end_entries[0].name, "b");
    assert_eq!(ranking.end_entries[0].total_cpu_time, 300);
    assert_eq!(ranking.end_entries[0].entries.len(), 1);
    assert_eq!(ranking.end_entries[0].entries[0].time, 3);
    assert_eq!(ranking.end_entries[0].entries[0].cpu_time.numerator, 30_000);
    assert_eq!(ranking.end_entries[0].entries[0].cpu_time.denominator, 200);
    assert_eq!(ranking.end_entries[1].name, "a");
    assert_eq!(ranking.end_entries[1].total_cpu_time, 10);
}

#[test]
fn timestamps_before_the_epoch_are_fine() {
    let values = vec![
        snapshot(i64::MIN, vec![sample("a", 1, 0)]),
        snapshot(i64::MAX, vec![sample("a", 1, 1)]),
    ];
    let ranking = get_values(values, 1).unwrap();
    assert_eq!(ranking.collection_time, u64::MAX);
    assert_eq!(ranking.end_entries[0].entries[0].cpu_time.denominator, u64::MAX as u128);
}

fn rising_processes(count: u64) -> Vec<Processes> {
    let first = (0..count).map(|i| sample(&format!("p{}", i), i, 0)).collect();
    let second = (0..count).map(|i| sample(&format!("p{}", i), i, 10 * (i + 1))).collect();
    vec![snapshot(0, first), snapshot(1, second)]
}

#[test]
fn twenty_processes_are_cut_down_to_fifteen() {
    let ranking = get_values(rising_processes(20), 100).unwrap();
    assert_eq!(ranking.end_entries.len(), 15);
    for (rank, series) in ranking.end_entries.iter().enumerate() {
        assert_eq!(series.name, format!("p{}", 19 - rank));
        assert_eq!(series.total_cpu_time, 10 * (20 - rank as u64));
    }
}

#[test]
fn seventeen_processes_are_cut_down_to_fifteen() {
    let ranking = get_values(rising_processes(17), 100).unwrap();
    assert_eq!(ranking.end_entries.len(), 15);
    assert_eq!(ranking.end_entries[14].name, "p2");
}

#[test]
fn sixteen_processes_are_kept_whole() {
    let ranking = get_values(rising_processes(16), 100).unwrap();
    assert_eq!(ranking.end_entries.len(), 16);
    assert_eq!(ranking.end_entries[0].name, "p15");
    assert_eq!(ranking.end_entries[15].name, "p0");
}

#[test]
fn equal_totals_keep_the_order_of_first_appearance() {
    let values = vec![
        snapshot(0, vec![sample("x", 1, 0), sample("y", 2, 0), sample("z", 3, 0), sample("w", 4, 0)]),
        snapshot(1, vec![sample("w", 4, 5), sample("z", 3, 9), sample("y", 2, 5), sample("x", 1, 5)]),
    ];
    let ranking = get_values(values, 100).unwrap();
    let names: Vec<&str> = ranking.end_entries.iter().map(|series| series.name.as_str()).collect();
    assert_eq!(names, vec!["z", "x", "y", "w"]);
}

#[test]
fn merged_ticks_beyond_64_bits_overflow() {
    let values = vec![snapshot(0, vec![sample("a", 1, u64::MAX), sample("a", 2, 1)])];
    assert_eq!(get_values(values, 100).unwrap_err(), DerivationError::Overflow);
}

#[test]
fn a_total_beyond_64_bits_overflows() {
    let values = vec![
        snapshot(0, vec![sample("a", 1, 0)]),
        snapshot(1, vec![sample("a", 1, u64::MAX)]),
        snapshot(2, vec![sample("a", 1, 0)]),
        snapshot(3, vec![sample("a", 1, 1)]),
    ];
    assert_eq!(get_values(values, 100).unwrap_err(), DerivationError::Overflow);
}

#[test]
fn a_total_at_the_limit_does_not_overflow() {
    let values = vec![
        snapshot(0, vec![sample("a", 1, 0)]),
        snapshot(1, vec![sample("a", 1, u64::MAX - 1)]),
        snapshot(2, vec![sample("a", 1, 0)]),
        snapshot(3, vec![sample("a", 1, 1)]),
    ];
    let ranking = get_values(values, u64::MAX).unwrap();
    assert_eq!(ranking.end_entries[0].total_cpu_time, u64::MAX);
    assert_eq!(ranking.end_entries[0].entries[0].cpu_time.numerator, (u64::MAX as u128 - 1) * 100);
    assert_eq!(ranking.end_entries[0].entries[0].cpu_time.denominator, u64::MAX as u128);
}

#[test]
fn the_same_input_gives_the_same_result() {
    let first = get_values(rising_processes(5), 100).unwrap();
    let second = get_values(rising_processes(5), 100).unwrap();
    assert_eq!(format!("{:?}", first), format!("{:?}", second));
}
